//! The course of a transparent UDP listener: what is done after each event.
//!
//! In each round silent clients and unused reply sockets are let go, then come the
//! datagrams of the clients, then those of the routes.

use crate::datagram;
use crate::datagram::{ReceivedDatagram, ReceivedView, RouteStep, RouteView};
use crate::dispatch;
use crate::error;
use crate::error::{Error, ErrorKind, ErrorView};
use crate::flow::{DestinationView, FlowId, HostView};
use crate::idle;
use crate::idle::IdleEntry;
use crate::net::SocketAddr;
use crate::outbound::{OutboundRegistry, ProxyEndpointView};
use crate::plan::{Endpoint, EndpointView};
use crate::policy::EngineView;
use crate::proxy::Target;
use crate::runtime::Runtime;
use crate::time::{Duration, Instant};
use crate::transparent;
use crate::transparent::{
    ClientEntry, ClientsView, DatagramMetadata, ReplySockets, ReplyStep, TransparentClients,
    MAX_CLIENTS,
};
use vstd::prelude::*;

verus! {

pub const INBOUND_TOKEN: usize = 0;

pub const OUTBOUND_FIRST_TOKEN: usize = 1;

pub const MAX_EVENT_BURST: usize = 32;

/// What a poll says of one of its sources.
#[derive(Clone, Copy, Debug, PartialEq, Eq, Structural)]
pub struct TokenEvent {
    pub token: usize,
    pub readable: bool,
}

/// A token that is ready, and the client that it belongs to.
#[derive(Clone, Copy, Debug, PartialEq, Eq, Structural)]
pub struct ReadyRoute {
    pub token: usize,
    pub client: SocketAddr,
}

/// What the listener waits for.
#[derive(Debug)]
pub enum ListenerPhase {
    Poll,
    Inbound { events: Vec<TokenEvent>, left: usize },
    Send { events: Vec<TokenEvent>, left: usize, client: usize },
    Route { ready: Vec<ReadyRoute>, index: usize, left: usize },
    Bind {
        ready: Vec<ReadyRoute>,
        index: usize,
        left: usize,
        source: SocketAddr,
        payload: Vec<u8>,
    },
    Reply { ready: Vec<ReadyRoute>, index: usize, left: usize, socket: usize, length: usize },
    Ended,
}

#[verifier::ext_equal]
pub enum ListenerPhaseView {
    Poll,
    Inbound { events: Seq<TokenEvent>, left: usize },
    Send { events: Seq<TokenEvent>, left: usize, client: usize },
    Route { ready: Seq<ReadyRoute>, index: usize, left: usize },
    Bind {
        ready: Seq<ReadyRoute>,
        index: usize,
        left: usize,
        source: SocketAddr,
        payload: Seq<u8>,
    },
    Reply { ready: Seq<ReadyRoute>, index: usize, left: usize, socket: usize, length: usize },
    Ended,
}

impl View for ListenerPhase {
    type V = ListenerPhaseView;

    open spec fn view(&self) -> ListenerPhaseView {
        match self {
            ListenerPhase::Poll => ListenerPhaseView::Poll,
            ListenerPhase::Inbound { events, left } => ListenerPhaseView::Inbound {
                events: events@,
                left: *left,
            },
            ListenerPhase::Send { events, left, client } => ListenerPhaseView::Send {
                events: events@,
                left: *left,
                client: *client,
            },
            ListenerPhase::Route { ready, index, left } => ListenerPhaseView::Route {
                ready: ready@,
                index: *index,
                left: *left,
            },
            ListenerPhase::Bind { ready, index, left, source, payload } => {
                ListenerPhaseView::Bind {
                    ready: ready@,
                    index: *index,
                    left: *left,
                    source: *source,
                    payload: payload@,
                }
            },
            ListenerPhase::Reply { ready, index, left, socket, length } => {
                ListenerPhaseView::Reply {
                    ready: ready@,
                    index: *index,
                    left: *left,
                    socket: *socket,
                    length: *length,
                }
            },
            ListenerPhase::Ended => ListenerPhaseView::Ended,
        }
    }
}

/// What is to be done next.
#[derive(Debug)]
pub enum ListenerAction {
    /// Wait for events, at most so long.
    Poll(Option<Duration>),
    ReceiveInbound,
    /// Send the payload to the target over the client's route to the endpoint.
    Send { client: usize, endpoint: Endpoint, target: Target, payload: Vec<u8> },
    /// Receive from the client's route with this number.
    ReceiveRoute { client: usize, route: usize },
    /// Bind a socket to the source of a reply.
    Bind(SocketAddr),
    /// Send the payload to the client from the reply socket with this number.
    SendReply { socket: usize, client: SocketAddr, payload: Vec<u8> },
    Finish(Error),
}

#[verifier::ext_equal]
pub enum ListenerActionView {
    Poll(Option<nat>),
    ReceiveInbound,
    Send { client: nat, endpoint: EndpointView, target: DestinationView, payload: Seq<u8> },
    ReceiveRoute { client: nat, route: nat },
    Bind(SocketAddr),
    SendReply { socket: nat, client: SocketAddr, payload: Seq<u8> },
    Finish(ErrorView),
}

impl View for ListenerAction {
    type V = ListenerActionView;

    open spec fn view(&self) -> ListenerActionView {
        match self {
            ListenerAction::Poll(Some(d)) => ListenerActionView::Poll(Some(d.nanos as nat)),
            ListenerAction::Poll(None) => ListenerActionView::Poll(None),
            ListenerAction::ReceiveInbound => ListenerActionView::ReceiveInbound,
            ListenerAction::Send { client, endpoint, target, payload } => {
                ListenerActionView::Send {
                    client: *client as nat,
                    endpoint: endpoint@,
                    target: target@,
                    payload: payload@,
                }
            },
            ListenerAction::ReceiveRoute { client, route } => ListenerActionView::ReceiveRoute {
                client: *client as nat,
                route: *route as nat,
            },
            ListenerAction::Bind(a) => ListenerActionView::Bind(*a),
            ListenerAction::SendReply { socket, client, payload } => {
                ListenerActionView::SendReply {
                    socket: *socket as nat,
                    client: *client,
                    payload: payload@,
                }
            },
            ListenerAction::Finish(e) => ListenerActionView::Finish(e@),
        }
    }
}

/// What came of an action.
#[derive(Debug)]
pub enum ListenerEvent<S> {
    Polled(Vec<TokenEvent>),
    PollFailed(Error),
    InboundReceived { metadata: DatagramMetadata, payload: Vec<u8> },
    InboundIdle,
    InboundFailed(Error),
    /// The datagram was sent over its route, or could not be.
    Sent(bool),
    RouteReceived { received: ReceivedDatagram, payload: Vec<u8> },
    RouteIdle,
    RouteFailed(Error),
    Bound(S),
    BindFailed,
    /// How many bytes the reply socket took, where it did not fail.
    ReplySent(Option<usize>),
}

#[verifier::ext_equal]
pub enum ListenerEventView<S> {
    Polled(Seq<TokenEvent>),
    PollFailed(ErrorView),
    InboundReceived {
        truncated: bool,
        client: Option<SocketAddr>,
        destinations: Seq<SocketAddr>,
        payload: Seq<u8>,
    },
    InboundIdle,
    InboundFailed(ErrorView),
    Sent(bool),
    RouteReceived { received: ReceivedView, payload: Seq<u8> },
    RouteIdle,
    RouteFailed(ErrorView),
    Bound(S),
    BindFailed,
    ReplySent(Option<usize>),
}

impl<S> View for ListenerEvent<S> {
    type V = ListenerEventView<S>;

    open spec fn view(&self) -> ListenerEventView<S> {
        match self {
            ListenerEvent::Polled(v) => ListenerEventView::Polled(v@),
            ListenerEvent::PollFailed(e) => ListenerEventView::PollFailed(e@),
            ListenerEvent::InboundReceived { metadata, payload } => {
                ListenerEventView::InboundReceived {
                    truncated: metadata.truncated,
                    client: metadata.client,
                    destinations: metadata.destinations@,
                    payload: payload@,
                }
            },
            ListenerEvent::InboundIdle => ListenerEventView::InboundIdle,
            ListenerEvent::InboundFailed(e) => ListenerEventView::InboundFailed(e@),
            ListenerEvent::Sent(ok) => ListenerEventView::Sent(*ok),
            ListenerEvent::RouteReceived { received, payload } => {
                ListenerEventView::RouteReceived { received: received@, payload: payload@ }
            },
            ListenerEvent::RouteIdle => ListenerEventView::RouteIdle,
            ListenerEvent::RouteFailed(e) => ListenerEventView::RouteFailed(e@),
            ListenerEvent::Bound(s) => ListenerEventView::Bound(*s),
            ListenerEvent::BindFailed => ListenerEventView::BindFailed,
            ListenerEvent::ReplySent(n) => ListenerEventView::ReplySent(*n),
        }
    }
}

/// A listener in its course.
#[verifier::ext_equal]
pub struct ListenerView<E, S> {
    pub clients: ClientsView<E>,
    pub replies: Seq<IdleEntry<S>>,
    pub phase: ListenerPhaseView,
}

/// A client's route owns the token.
pub open spec fn has_ready_route<E>(clients: Seq<ClientEntry<E>>, ready: ReadyRoute) -> bool {
    exists|c: int, r: int| #[trigger] is_ready_route(clients, ready, c, r)
}

pub open spec fn is_ready_route<E>(
    clients: Seq<ClientEntry<E>>,
    ready: ReadyRoute,
    client: int,
    route: int,
) -> bool {
    &&& 0 <= client < clients.len()
    &&& clients[client].key == ready.client
    &&& 0 <= route < clients[client].value@.len()
    &&& clients[client].value@[route].owns(ready.token as nat)
}

/// The next token whose client is still there; those whose client is gone are
/// forgotten on the way.
pub open spec fn next_ready<E>(
    clients: Seq<ClientEntry<E>>,
    owners: Map<usize, SocketAddr>,
    ready: Seq<ReadyRoute>,
    index: nat,
) -> (Map<usize, SocketAddr>, nat)
    decreases ready.len() - index,
{
    if index >= ready.len() {
        (owners, index)
    } else if !idle::has_key(clients, ready[index as int].client) {
        next_ready(clients, owners.remove(ready[index as int].token), ready, index + 1)
    } else if !has_ready_route(clients, ready[index as int]) {
        next_ready(clients, owners, ready, index + 1)
    } else {
        (owners, index)
    }
}

/// The tokens of a batch that belong to clients.
pub open spec fn ready_routes(
    events: Seq<TokenEvent>,
    owners: Map<usize, SocketAddr>,
) -> Seq<ReadyRoute>
    decreases events.len(),
{
    if events.len() == 0 {
        Seq::empty()
    } else {
        let front = ready_routes(events.drop_last(), owners);
        let token = events.last().token;
        if owners.contains_key(token) {
            front.push(ReadyRoute { token, client: owners[token] })
        } else {
            front
        }
    }
}

pub open spec fn inbound_is_ready(events: Seq<TokenEvent>) -> bool {
    exists|i: int|
        0 <= i < events.len() && (#[trigger] events[i]).token == INBOUND_TOKEN
            && events[i].readable
}

impl<E, S> ListenerView<E, S> {
    /// A new round.
    pub open spec fn polls(self, after: ListenerView<E, S>, action: ListenerActionView, now: Instant)
        -> bool {
        &&& after == (ListenerView { phase: ListenerPhaseView::Poll, ..self })
        &&& action == ListenerActionView::Poll(
            idle::soonest(self.clients.clients, now, transparent::idle_limit()),
        )
    }

    pub open spec fn ends(
        self,
        after: ListenerView<E, S>,
        action: ListenerActionView,
        e: ErrorView,
    ) -> bool {
        &&& after == (ListenerView { phase: ListenerPhaseView::Ended, ..self })
        &&& action == ListenerActionView::Finish(e)
    }

    /// The route of the next token, with a fresh number of turns, or a new round.
    pub open spec fn reads_routes(
        self,
        ready: Seq<ReadyRoute>,
        index: nat,
        after: ListenerView<E, S>,
        action: ListenerActionView,
        now: Instant,
    ) -> bool {
        let (owners, k) = next_ready(self.clients.clients, self.clients.owners, ready, index);
        let kept = ListenerView { clients: ClientsView { owners, ..self.clients }, ..self };
        if k < ready.len() {
            &&& after == (ListenerView {
                phase: ListenerPhaseView::Route {
                    ready,
                    index: k as usize,
                    left: (MAX_EVENT_BURST - 1) as usize,
                },
                ..kept
            })
            &&& action matches ListenerActionView::ReceiveRoute { client, route }
                && is_ready_route(self.clients.clients, ready[k as int], client as int, route as int)
        } else {
            kept.polls(after, action, now)
        }
    }

    /// The same route again, as long as turns are left and its client is there.
    pub open spec fn reads_again(
        self,
        ready: Seq<ReadyRoute>,
        index: usize,
        left: usize,
        after: ListenerView<E, S>,
        action: ListenerActionView,
        now: Instant,
    ) -> bool {
        if left > 0 && has_ready_route(self.clients.clients, ready[index as int]) {
            &&& after == (ListenerView {
                phase: ListenerPhaseView::Route { ready, index, left: (left - 1) as usize },
                ..self
            })
            &&& action matches ListenerActionView::ReceiveRoute { client, route }
                && is_ready_route(
                self.clients.clients,
                ready[index as int],
                client as int,
                route as int,
            )
        } else {
            self.reads_routes(ready, index as nat + 1, after, action, now)
        }
    }

    /// The clients' datagrams, as long as turns are left.
    pub open spec fn receives_again(
        self,
        events: Seq<TokenEvent>,
        left: usize,
        after: ListenerView<E, S>,
        action: ListenerActionView,
        now: Instant,
    ) -> bool {
        if left > 0 {
            &&& after == (ListenerView {
                phase: ListenerPhaseView::Inbound { events, left: (left - 1) as usize },
                ..self
            })
            &&& action == ListenerActionView::ReceiveInbound
        } else {
            self.reads_routes(ready_routes(events, self.clients.owners), 0, after, action, now)
        }
    }

    pub open spec fn polled(
        self,
        events: Seq<TokenEvent>,
        after: ListenerView<E, S>,
        action: ListenerActionView,
        now: Instant,
    ) -> bool {
        let kept = ListenerView {
            clients: self.clients.cleaned(now),
            replies: idle::in_use(self.replies, now, transparent::idle_limit()),
            ..self
        };
        if inbound_is_ready(events) {
            kept.receives_again(events, MAX_EVENT_BURST, after, action, now)
        } else {
            kept.reads_routes(ready_routes(events, kept.clients.owners), 0, after, action, now)
        }
    }

    /// A datagram of a client: it is sent on where the policy, the endpoint and the
    /// number of clients allow it.
    pub open spec fn received<D>(
        self,
        events: Seq<TokenEvent>,
        left: usize,
        source: SocketAddr,
        target: DestinationView,
        payload: Seq<u8>,
        policy: EngineView,
        registry: Seq<ProxyEndpointView<D>>,
        id: FlowId,
        after: ListenerView<E, S>,
        action: ListenerActionView,
        now: Instant,
    ) -> bool {
        match dispatch::datagram_route(policy, registry, target, id) {
            None => self.receives_again(events, left, after, action, now),
            Some(endpoint) => {
                let cleaned = self.clients.cleaned(now);
                if !idle::has_key(self.clients.clients, source) && cleaned.clients.len()
                    >= MAX_CLIENTS {
                    (ListenerView { clients: cleaned, ..self }).receives_again(
                        events,
                        left,
                        after,
                        action,
                        now,
                    )
                } else {
                    &&& action matches ListenerActionView::Send {
                        client,
                        endpoint: e,
                        target: t,
                        payload: p,
                    } && {
                        &&& e == endpoint && t == target && p == payload
                        &&& client < after.clients.clients.len()
                        &&& after.clients.clients[client as int].key == source
                        &&& after.phase == (ListenerPhaseView::Send {
                            events,
                            left,
                            client: client as usize,
                        })
                    }
                    &&& after.replies == self.replies
                    &&& if idle::has_key(self.clients.clients, source) {
                        after.clients == self.clients
                    } else {
                        &&& after.clients.owners == cleaned.owners
                        &&& after.clients.clients.len() == cleaned.clients.len() + 1
                        &&& after.clients.clients.drop_last() == cleaned.clients
                        &&& after.clients.clients.last().last == now
                        &&& after.clients.clients.last().value@.len() == 0
                        &&& after.clients.clients.last().value.spec_token_end() == 0
                    }
                }
            },
        }
    }

    /// A datagram of a route: it is answered from the address that it came from.
    pub open spec fn answers(
        self,
        ready: Seq<ReadyRoute>,
        index: usize,
        left: usize,
        source: DestinationView,
        payload: Seq<u8>,
        after: ListenerView<E, S>,
        action: ListenerActionView,
        now: Instant,
    ) -> bool {
        let client = ready[index as int].client;
        match transparent::reply_problem(source, client) {
            Some(_) => self.reads_again(ready, index, left, after, action, now),
            None => {
                let key = transparent::reply_source(source)->Ok_0;
                if idle::has_key(self.replies, key) {
                    &&& after.clients == self.clients && after.replies == self.replies
                    &&& action matches ListenerActionView::SendReply {
                        socket,
                        client: c,
                        payload: p,
                    } && {
                        &&& socket < self.replies.len() && self.replies[socket as int].key == key
                        &&& c == client && p == payload
                        &&& after.phase == (ListenerPhaseView::Reply {
                            ready,
                            index,
                            left,
                            socket: socket as usize,
                            length: payload.len() as usize,
                        })
                    }
                } else {
                    &&& action == ListenerActionView::Bind(key)
                    &&& after.clients == self.clients
                    &&& transparent::has_made_room(self.replies, after.replies, now)
                    &&& after.phase == (ListenerPhaseView::Bind {
                        ready,
                        index,
                        left,
                        source: key,
                        payload,
                    })
                }
            },
        }
    }

    /// A reply went out whole where the socket took all of it; that counts as use
    /// of the socket and of the client.
    pub open spec fn replied(
        self,
        ready: Seq<ReadyRoute>,
        index: usize,
        left: usize,
        socket: usize,
        length: usize,
        sent: Option<usize>,
        after: ListenerView<E, S>,
        action: ListenerActionView,
        now: Instant,
    ) -> bool {
        if sent == Some(length) {
            let replies = self.replies.update(
                socket as int,
                IdleEntry { last: now, ..self.replies[socket as int] },
            );
            (ListenerView {
                replies,
                clients: heard_of(self.clients, ready[index as int].client, now),
                ..self
            }).reads_again(ready, index, left, after, action, now)
        } else {
            self.reads_again(ready, index, left, after, action, now)
        }
    }

    /// What an event leads to.
    pub open spec fn steps<D>(
        self,
        event: ListenerEventView<S>,
        policy: EngineView,
        registry: Seq<ProxyEndpointView<D>>,
        id: FlowId,
        after: ListenerView<E, S>,
        action: ListenerActionView,
        now: Instant,
    ) -> bool {
        match (self.phase, event) {
            (ListenerPhaseView::Poll, ListenerEventView::Polled(events)) => self.polled(
                events,
                after,
                action,
                now,
            ),
            (ListenerPhaseView::Poll, ListenerEventView::PollFailed(e)) => if e.kind
                == ErrorKind::Interrupted {
                self.polls(after, action, now)
            } else {
                self.ends(after, action, e)
            },
            (
                ListenerPhaseView::Inbound { events, left },
                ListenerEventView::InboundReceived { truncated, client, destinations, payload },
            ) => match transparent::intercepted(truncated, client, destinations) {
                Err(e) => self.ends(after, action, e),
                Ok((source, target)) => self.received(
                    events,
                    left,
                    source,
                    target,
                    payload,
                    policy,
                    registry,
                    id,
                    after,
                    action,
                    now,
                ),
            },
            (ListenerPhaseView::Inbound { events, left }, ListenerEventView::InboundIdle) => {
                self.receives_again(events, 0, after, action, now)
            },
            (ListenerPhaseView::Inbound { events, left }, ListenerEventView::InboundFailed(e)) => {
                self.ends(after, action, e)
            },
            (ListenerPhaseView::Send { events, left, client }, ListenerEventView::Sent(ok)) => {
                if ok {
                    (ListenerView {
                        clients: ClientsView {
                            clients: self.clients.clients.update(
                                client as int,
                                IdleEntry { last: now, ..self.clients.clients[client as int] },
                            ),
                            owners: transparent::owners_with(
                                self.clients.owners,
                                datagram::tokens_of(self.clients.clients[client as int].value@),
                                self.clients.clients[client as int].key,
                            ),
                        },
                        ..self
                    }).receives_again(events, left, after, action, now)
                } else {
                    self.receives_again(events, left, after, action, now)
                }
            },
            (
                ListenerPhaseView::Route { ready, index, left },
                ListenerEventView::RouteReceived { received, payload },
            ) => self.answers(ready, index, left, received.source, payload, after, action, now),
            (ListenerPhaseView::Route { ready, index, left }, ListenerEventView::RouteIdle) => {
                self.reads_routes(ready, index as nat + 1, after, action, now)
            },
            (
                ListenerPhaseView::Route { ready, index, left },
                ListenerEventView::RouteFailed(e),
            ) => self.ends(after, action, e),
            (
                ListenerPhaseView::Bind { ready, index, left, source, payload },
                ListenerEventView::Bound(socket),
            ) => {
                &&& after == (ListenerView {
                    replies: self.replies.push(
                        IdleEntry { key: source, last: now, value: socket },
                    ),
                    phase: ListenerPhaseView::Reply {
                        ready,
                        index,
                        left,
                        socket: self.replies.len() as usize,
                        length: payload.len() as usize,
                    },
                    ..self
                })
                &&& action == (ListenerActionView::SendReply {
                    socket: self.replies.len(),
                    client: ready[index as int].client,
                    payload,
                })
            },
            (
                ListenerPhaseView::Bind { ready, index, left, source, payload },
                ListenerEventView::BindFailed,
            ) => self.reads_again(ready, index, left, after, action, now),
            (
                ListenerPhaseView::Reply { ready, index, left, socket, length },
                ListenerEventView::ReplySent(sent),
            ) => self.replied(ready, index, left, socket, length, sent, after, action, now),
            _ => false,
        }
    }

    /// Whether the event can follow the last action.
    pub open spec fn expects(self, event: ListenerEventView<S>) -> bool {
        match self.phase {
            ListenerPhaseView::Poll => event is Polled || event is PollFailed,
            ListenerPhaseView::Inbound { .. } => event is InboundReceived || event is InboundIdle
                || event is InboundFailed,
            ListenerPhaseView::Send { .. } => event is Sent,
            ListenerPhaseView::Route { .. } => event is RouteReceived || event is RouteIdle
                || event is RouteFailed,
            ListenerPhaseView::Bind { .. } => event is Bound || event is BindFailed,
            ListenerPhaseView::Reply { .. } => event is ReplySent,
            ListenerPhaseView::Ended => false,
        }
    }
}

/// A client was heard of, if it is still there.
pub open spec fn heard_of<E>(c: ClientsView<E>, client: SocketAddr, now: Instant) -> ClientsView<
    E,
> {
    ClientsView {
        clients: Seq::new(
            c.clients.len(),
            |i: int|
                if c.clients[i].key == client {
                    IdleEntry { last: now, ..c.clients[i] }
                } else {
                    c.clients[i]
                },
        ),
        ..c
    }
}

/// A transparent UDP listener in its course.
pub struct TransparentRelay<E, S> {
    clients: TransparentClients<E>,
    replies: ReplySockets<S>,
    phase: ListenerPhase,
}

impl<E, S> View for TransparentRelay<E, S> {
    type V = ListenerView<E, S>;

    closed spec fn view(&self) -> ListenerView<E, S> {
        ListenerView { clients: self.clients@, replies: self.replies@, phase: self.phase@ }
    }
}

fn is_inbound_ready(events: &Vec<TokenEvent>) -> (r: bool)
    ensures
        r == inbound_is_ready(events@),
{
    let mut i: usize = 0;
    while i < events.len()
        invariant
            i <= events@.len(),
            forall|j: int|
                0 <= j < i ==> !((#[trigger] events@[j]).token == INBOUND_TOKEN
                    && events@[j].readable),
        decreases events@.len() - i,
    {
        if events[i].token == INBOUND_TOKEN && events[i].readable {
            assert(events@[i as int].readable);
            return true;
        }
        i = i + 1;
    }
    false
}

impl<E, S> TransparentRelay<E, S> {
    /// The tables are sound, and the phase speaks of what is in them.
    pub closed spec fn wf(self) -> bool {
        &&& self.sound()
        &&& match self.phase@ {
            ListenerPhaseView::Send { events, left, client } => client
                < self.clients@.clients.len(),
            ListenerPhaseView::Route { ready, index, left } => index < ready.len(),
            ListenerPhaseView::Bind { ready, index, left, source, payload } => index < ready.len()
                && !idle::has_key(self.replies@, source) && self.replies@.len()
                < transparent::MAX_REPLY_SOCKETS,
            ListenerPhaseView::Reply { ready, index, left, socket, length } => index < ready.len()
                && socket < self.replies@.len(),
            _ => true,
        }
    }

    spec fn sound(self) -> bool {
        self.clients.wf() && self.replies.wf()
    }

    /// The number of clients and of reply sockets is bounded in every state.
    pub proof fn law_tables_are_bounded(self)
        requires
            self.wf(),
        ensures
            self@.clients.clients.len() <= MAX_CLIENTS,
            self@.replies.len() <= transparent::MAX_REPLY_SOCKETS,
            idle::distinct_keys(self@.clients.clients),
            idle::distinct_keys(self@.replies),
    {
        self.clients.lemma_wf();
        self.replies.lemma_wf();
    }

    /// Starts the first round.
    pub fn start(now: Instant) -> (r: (TransparentRelay<E, S>, ListenerAction))
        ensures
            r.0.wf(),
            r.0@.phase == ListenerPhaseView::Poll,
            r.0@.clients.clients.len() == 0,
            r.0@.clients.owners == Map::<usize, SocketAddr>::empty(),
            r.0@.replies.len() == 0,
            r.1@ == ListenerActionView::Poll(None),
    {
        let mut relay = TransparentRelay {
            clients: TransparentClients::new(),
            replies: ReplySockets::new(),
            phase: ListenerPhase::Ended,
        };
        let action = relay.poll(now);
        (relay, action)
    }

    fn poll(&mut self, now: Instant) -> (r: ListenerAction)
        requires
            old(self).sound(),
        ensures
            final(self).wf(),
            old(self)@.polls(final(self)@, r@, now),
    {
        self.phase = ListenerPhase::Poll;
        ListenerAction::Poll(self.clients.next_timeout(now))
    }

    fn finish(&mut self, e: Error) -> (r: ListenerAction)
        requires
            old(self).sound(),
        ensures
            final(self).wf(),
            old(self)@.ends(final(self)@, r@, e@),
    {
        self.phase = ListenerPhase::Ended;
        ListenerAction::Finish(e)
    }

    /// The client and the route of a token that is ready.
    fn locate(&self, ready: ReadyRoute) -> (r: Option<(usize, usize)>)
        requires
            self.sound(),
        ensures
            match r {
                Some((c, k)) => is_ready_route(
                    self@.clients.clients,
                    ready,
                    c as int,
                    k as int,
                ),
                None => !has_ready_route(self@.clients.clients, ready),
            },
    {
        let ghost clients = self@.clients.clients;
        proof {
            self.clients.lemma_wf();
        }
        match self.clients.find(ready.client) {
            None => {
                assert(!has_ready_route(clients, ready)) by {
                    if has_ready_route(clients, ready) {
                        let (c, k) = choose|c: int, k: int| #[trigger]
                            is_ready_route(clients, ready, c, k);
                        assert(clients[c].key == ready.client);
                    }
                }
                None
            },
            Some(c) => match self.clients.route_of(c, ready.token) {
                Some(k) => Some((c, k)),
                None => {
                    assert(!has_ready_route(clients, ready)) by {
                        if has_ready_route(clients, ready) {
                            let (d, k) = choose|d: int, k: int| #[trigger]
                                is_ready_route(clients, ready, d, k);
                            assert(d == c) by {
                                assert(clients[d].key == clients[c as int].key);
                            }
                            assert(clients[c as int].value@[k].owns(ready.token as nat));
                        }
                    }
                    None
                },
            },
        }
    }

    fn read_routes(&mut self, ready: Vec<ReadyRoute>, index: usize, now: Instant) -> (r:
        ListenerAction)
        requires
            old(self).sound(),
        ensures
            final(self).wf(),
            old(self)@.reads_routes(ready@, index as nat, final(self)@, r@, now),
    {
        let mut i: usize = index;
        while i < ready.len()
            invariant
                index <= i,
                self.sound(),
                self@.clients.clients == old(self)@.clients.clients,
                self@.replies == old(self)@.replies,
                next_ready(
                    old(self)@.clients.clients,
                    old(self)@.clients.owners,
                    ready@,
                    index as nat,
                ) == next_ready(
                    old(self)@.clients.clients,
                    self@.clients.owners,
                    ready@,
                    i as nat,
                ),
            decreases ready@.len() - i,
        {
            let item = ready[i];
            match self.locate(item) {
                Some((client, route)) => {
                    proof {
                        assert(is_ready_route(
                            old(self)@.clients.clients,
                            ready@[i as int],
                            client as int,
                            route as int,
                        ));
                        assert(idle::has_key(old(self)@.clients.clients, item.client));
                    }
                    self.phase = ListenerPhase::Route {
                        ready,
                        index: i,
                        left: MAX_EVENT_BURST - 1,
                    };
                    return ListenerAction::ReceiveRoute { client, route };
                },
                None => {
                    if self.clients.find(item.client).is_none() {
                        self.clients.forget(item.token);
                    }
                },
            }
            i = i + 1;
        }
        let ghost kept = ListenerView {
            clients: ClientsView {
                owners: next_ready(
                    old(self)@.clients.clients,
                    old(self)@.clients.owners,
                    ready@,
                    index as nat,
                ).0,
                ..old(self)@.clients
            },
            ..old(self)@
        };
        let r = self.poll(now);
        assert(self@ =~= (ListenerView { phase: ListenerPhaseView::Poll, ..kept }));
        r
    }

    fn read_again(&mut self, ready: Vec<ReadyRoute>, index: usize, left: usize, now: Instant) -> (r:
        ListenerAction)
        requires
            old(self).sound(),
            index < ready@.len(),
        ensures
            final(self).wf(),
            old(self)@.reads_again(ready@, index, left, final(self)@, r@, now),
    {
        assert(ready.len() == ready@.len());
        if left > 0 {
            if let Some((client, route)) = self.locate(ready[index]) {
                assert(is_ready_route(
                    self@.clients.clients,
                    ready@[index as int],
                    client as int,
                    route as int,
                ));
                self.phase = ListenerPhase::Route { ready, index, left: left - 1 };
                return ListenerAction::ReceiveRoute { client, route };
            }
        }
        self.read_routes(ready, index + 1, now)
    }

    fn ready_of(&self, events: &Vec<TokenEvent>) -> (r: Vec<ReadyRoute>)
        ensures
            r@ == ready_routes(events@, self@.clients.owners),
    {
        let mut out: Vec<ReadyRoute> = Vec::new();
        let mut i: usize = 0;
        assert(events@.take(0).len() == 0);
        while i < events.len()
            invariant
                i <= events@.len(),
                out@ == ready_routes(events@.take(i as int), self@.clients.owners),
            decreases events@.len() - i,
        {
            let token: usize = events[i].token;
            assert(events@.take(i + 1).drop_last() =~= events@.take(i as int));
            assert(events@.take(i + 1).last() == events@[i as int]);
            if let Some(client) = self.clients.owner(token) {
                out.push(ReadyRoute { token, client });
            }
            i = i + 1;
        }
        assert(events@.take(i as int) =~= events@);
        out
    }

    fn receive_again(&mut self, events: Vec<TokenEvent>, left: usize, now: Instant) -> (r:
        ListenerAction)
        requires
            old(self).sound(),
        ensures
            final(self).wf(),
            old(self)@.receives_again(events@, left, final(self)@, r@, now),
    {
        if left > 0 {
            self.phase = ListenerPhase::Inbound { events, left: left - 1 };
            ListenerAction::ReceiveInbound
        } else {
            let ready = self.ready_of(&events);
            self.read_routes(ready, 0, now)
        }
    }

    fn begin_round(&mut self, events: Vec<TokenEvent>, now: Instant) -> (r: ListenerAction)
        requires
            old(self).sound(),
        ensures
            final(self).wf(),
            old(self)@.polled(events@, final(self)@, r@, now),
    {
        self.clients.cleanup_idle(now);
        self.replies.cleanup_expired(now);
        if is_inbound_ready(&events) {
            self.receive_again(events, MAX_EVENT_BURST, now)
        } else {
            let ready = self.ready_of(&events);
            self.read_routes(ready, 0, now)
        }
    }

    fn forward<D>(
        &mut self,
        events: Vec<TokenEvent>,
        left: usize,
        source: SocketAddr,
        target: Target,
        payload: Vec<u8>,
        runtime: &Runtime,
        outbounds: &OutboundRegistry<D>,
        id: FlowId,
        now: Instant,
    ) -> (r: ListenerAction)
        requires
            old(self).sound(),
        ensures
            final(self).wf(),
            old(self)@.received(
                events@,
                left,
                source,
                target@,
                payload@,
                runtime@,
                outbounds@,
                id,
                final(self)@,
                r@,
                now,
            ),
    {
        match dispatch::datagram_endpoint(runtime, outbounds, &target, id) {
            None => self.receive_again(events, left, now),
            Some(endpoint) => match self.clients.enter(source, now) {
                None => self.receive_again(events, left, now),
                Some(client) => {
                    proof {
                        let before = old(self)@.clients;
                        if !idle::has_key(before.clients, source) {
                            let cleaned = before.cleaned(now);
                            assert(self@.clients.clients.drop_last() =~= cleaned.clients);
                        }
                    }
                    self.phase = ListenerPhase::Send { events, left, client };
                    ListenerAction::Send { client, endpoint, target, payload }
                },
            },
        }
    }

    fn answer(
        &mut self,
        ready: Vec<ReadyRoute>,
        index: usize,
        left: usize,
        source: &Target,
        payload: Vec<u8>,
        now: Instant,
    ) -> (r: ListenerAction)
        requires
            old(self).sound(),
            index < ready@.len(),
        ensures
            final(self).wf(),
            old(self)@.answers(ready@, index, left, source@, payload@, final(self)@, r@, now),
    {
        let client = ready[index].client;
        match self.replies.prepare(source, client, now) {
            Err(_) => self.read_again(ready, index, left, now),
            Ok(ReplyStep::Use(socket)) => {
                assert(idle::has_key(
                    old(self)@.replies,
                    transparent::reply_source(source@)->Ok_0,
                ));
                let length: usize = payload.len();
                self.phase = ListenerPhase::Reply { ready, index, left, socket, length };
                ListenerAction::SendReply { socket, client, payload }
            },
            Ok(ReplyStep::Bind(address)) => {
                self.phase = ListenerPhase::Bind { ready, index, left, source: address, payload };
                ListenerAction::Bind(address)
            },
        }
    }

    fn reply_done(
        &mut self,
        ready: Vec<ReadyRoute>,
        index: usize,
        left: usize,
        socket: usize,
        length: usize,
        sent: Option<usize>,
        now: Instant,
    ) -> (r: ListenerAction)
        requires
            old(self).sound(),
            index < ready@.len(),
            socket < old(self)@.replies.len(),
        ensures
            final(self).wf(),
            old(self)@.replied(ready@, index, left, socket, length, sent, final(self)@, r@, now),
    {
        if let Some(count) = sent {
            if self.replies.sent(socket, length, count, now).is_ok() {
                let client = ready[index].client;
                let ghost before = self@.clients;
                proof {
                    self.clients.lemma_wf();
                }
                if let Some(c) = self.clients.find(client) {
                    self.clients.touch(c, now);
                    assert(self@.clients =~= heard_of(before, client, now)) by {
                        assert forall|i: int| 0 <= i < before.clients.len() implies (
                        #[trigger] self@.clients.clients[i]) == heard_of(
                            before,
                            client,
                            now,
                        ).clients[i] by {
                            if i != c {
                                assert(before.clients[i].key != before.clients[c as int].key);
                            }
                        }
                    }
                } else {
                    assert(self@.clients =~= heard_of(before, client, now));
                }
            }
        }
        self.read_again(ready, index, left, now)
    }

    /// Takes what came of the last action; gives the next one.
    pub fn step<D>(
        &mut self,
        event: ListenerEvent<S>,
        runtime: &Runtime,
        outbounds: &OutboundRegistry<D>,
        id: FlowId,
        now: Instant,
    ) -> (r: ListenerAction)
        requires
            old(self).wf(),
            old(self)@.expects(event@),
        ensures
            final(self).wf(),
            old(self)@.steps(event@, runtime@, outbounds@, id, final(self)@, r@, now),
    {
        let mut phase = ListenerPhase::Ended;
        std::mem::swap(&mut phase, &mut self.phase);
        match (phase, event) {
            (ListenerPhase::Poll, ListenerEvent::Polled(events)) => self.begin_round(events, now),
            (ListenerPhase::Poll, ListenerEvent::PollFailed(e)) => {
                if e.kind == ErrorKind::Interrupted {
                    self.poll(now)
                } else {
                    self.finish(e)
                }
            },
            (
                ListenerPhase::Inbound { events, left },
                ListenerEvent::InboundReceived { metadata, payload },
            ) => match transparent::intercepted_datagram(&metadata) {
                Err(e) => self.finish(e),
                Ok(d) => self.forward(
                    events,
                    left,
                    d.client,
                    d.target,
                    payload,
                    runtime,
                    outbounds,
                    id,
                    now,
                ),
            },
            (ListenerPhase::Inbound { events, .. }, ListenerEvent::InboundIdle) => {
                self.receive_again(events, 0, now)
            },
            (ListenerPhase::Inbound { .. }, ListenerEvent::InboundFailed(e)) => self.finish(e),
            (ListenerPhase::Send { events, left, client }, ListenerEvent::Sent(ok)) => {
                if ok {
                    self.clients.datagram_sent(client, now);
                }
                self.receive_again(events, left, now)
            },
            (
                ListenerPhase::Route { ready, index, left },
                ListenerEvent::RouteReceived { received, payload },
            ) => self.answer(ready, index, left, &received.source, payload, now),
            (ListenerPhase::Route { ready, index, .. }, ListenerEvent::RouteIdle) => {
                assert(ready.len() == ready@.len());
                self.read_routes(ready, index + 1, now)
            },
            (ListenerPhase::Route { .. }, ListenerEvent::RouteFailed(e)) => self.finish(e),
            (
                ListenerPhase::Bind { ready, index, left, source, payload },
                ListenerEvent::Bound(socket),
            ) => {
                let number = self.replies.bound(source, socket, now);
                let client = ready[index].client;
                let length: usize = payload.len();
                self.phase = ListenerPhase::Reply { ready, index, left, socket: number, length };
                ListenerAction::SendReply { socket: number, client, payload }
            },
            (ListenerPhase::Bind { ready, index, left, .. }, ListenerEvent::BindFailed) => {
                self.read_again(ready, index, left, now)
            },
            (
                ListenerPhase::Reply { ready, index, left, socket, length },
                ListenerEvent::ReplySent(sent),
            ) => self.reply_done(ready, index, left, socket, length, sent, now),
            _ => self.poll(now),
        }
    }

    /// What to do with a datagram of a client for an endpoint.
    pub fn route(&self, client: usize, endpoint: &Endpoint) -> (r: RouteStep)
        requires
            self.wf(),
            client < self@.clients.clients.len(),
        ensures
            ({
                let routes = self@.clients.clients[client as int].value@;
                match r {
                    RouteStep::Reuse(i) => i < routes.len() && routes[i as int].endpoint
                        == endpoint@,
                    RouteStep::Open => !datagram::has_route(routes, endpoint@) && routes.len()
                        < datagram::MAX_DATAGRAM_ROUTES,
                    RouteStep::Refuse(e) => !datagram::has_route(routes, endpoint@) && routes.len()
                        == datagram::MAX_DATAGRAM_ROUTES && e@
                        == datagram::route_limit_failure(),
                }
            }),
    {
        self.clients.route(client, endpoint)
    }

    /// Puts in a path that was opened for a client and an endpoint.
    pub fn insert_route(
        &mut self,
        client: usize,
        endpoint: Endpoint,
        execution: E,
        first_token: usize,
        token_count: usize,
    ) -> (r: Result<usize, Error>)
        requires
            old(self).wf(),
            client < old(self)@.clients.clients.len(),
            !datagram::has_route(old(self)@.clients.clients[client as int].value@, endpoint@),
            old(self)@.clients.clients[client as int].value@.len() < datagram::MAX_DATAGRAM_ROUTES,
        ensures
            final(self).wf(),
            final(self)@.replies == old(self)@.replies,
            final(self)@.phase == old(self)@.phase,
            final(self)@.clients.owners == old(self)@.clients.owners,
            final(self)@.clients.clients.len() == old(self)@.clients.clients.len(),
            forall|j: int|
                0 <= j < old(self)@.clients.clients.len() && j != client
                    ==> #[trigger] final(self)@.clients.clients[j] == old(
                    self)@.clients.clients[j],
            final(self)@.clients.clients[client as int].key == old(
                self)@.clients.clients[client as int].key,
            final(self)@.clients.clients[client as int].last == old(
                self)@.clients.clients[client as int].last,
            match r {
                Ok(i) => {
                    let routes = old(self)@.clients.clients[client as int].value@;
                    &&& old(self)@.clients.clients[client as int].value.spec_token_end()
                        <= first_token
                    &&& final(self)@.clients.clients[client as int].value.spec_token_end()
                        == first_token + token_count
                    &&& i == routes.len()
                    &&& final(self)@.clients.clients[client as int].value@ == routes.push(
                        RouteView {
                            endpoint: endpoint@,
                            first_token: first_token as nat,
                            token_count: token_count as nat,
                            execution,
                        },
                    )
                },
                Err(e) => {
                    &&& first_token < old(
                        self)@.clients.clients[client as int].value.spec_token_end() || first_token
                        + token_count > usize::MAX
                    &&& final(self)@ == old(self)@
                    &&& e@ == error::failure(
                        ErrorKind::Other,
                        "datagram readiness tokens overlap"@,
                    )
                },
            },
    {
        self.clients.insert_route(client, endpoint, execution, first_token, token_count)
    }

    /// An open path of a client, to be used.
    pub fn execution_mut(&mut self, client: usize, route: usize) -> (r: &mut E)
        requires
            old(self).wf(),
            client < old(self)@.clients.clients.len(),
            route < old(self)@.clients.clients[client as int].value@.len(),
        ensures
            *r == old(self)@.clients.clients[client as int].value@[route as int].execution,
            final(self).wf(),
            final(self)@.replies == old(self)@.replies,
            final(self)@.phase == old(self)@.phase,
            final(self)@.clients.owners == old(self)@.clients.owners,
            final(self)@.clients.clients.len() == old(self)@.clients.clients.len(),
            forall|j: int|
                0 <= j < old(self)@.clients.clients.len() && j != client
                    ==> #[trigger] final(self)@.clients.clients[j] == old(
                    self)@.clients.clients[j],
            final(self)@.clients.clients[client as int].key == old(
                self)@.clients.clients[client as int].key,
            final(self)@.clients.clients[client as int].last == old(
                self)@.clients.clients[client as int].last,
            final(self)@.clients.clients[client as int].value@ == old(
                self)@.clients.clients[client as int].value@.update(
                route as int,
                RouteView {
                    execution: *final(r),
                    ..old(self)@.clients.clients[client as int].value@[route as int]
                },
            ),
            final(self)@.clients.clients[client as int].value.spec_token_end() == old(
                self)@.clients.clients[client as int].value.spec_token_end(),
    {
        self.clients.execution_mut(client, route)
    }

    /// The reply socket with that number.
    pub fn reply_socket(&self, i: usize) -> (r: &S)
        requires
            i < self@.replies.len(),
        ensures
            *r == self@.replies[i as int].value,
    {
        self.replies.socket(i)
    }
}

/// A datagram that was meant for an address is sent to that address, unchanged, over the
/// endpoint that the policy names, in the name of its sender. Only one that the policy does
/// not route is dropped, and one of a new client while 512 clients are in use.
#[verifier::rlimit(30)]
pub proof fn law_intercepted_datagrams_are_forwarded<E, S, D>(
    relay: ListenerView<E, S>,
    source: SocketAddr,
    destinations: Seq<SocketAddr>,
    payload: Seq<u8>,
    policy: EngineView,
    registry: Seq<ProxyEndpointView<D>>,
    id: FlowId,
    after: ListenerView<E, S>,
    action: ListenerActionView,
    now: Instant,
)
    requires
        relay.phase is Inbound,
        destinations.len() > 0,
        destinations.last().port > 0,
        relay.steps(
            ListenerEventView::InboundReceived {
                truncated: false,
                client: Some(source),
                destinations,
                payload,
            },
            policy,
            registry,
            id,
            after,
            action,
            now,
        ),
    ensures
        ({
            let original = destinations[destinations.len() - 1];
            let target = DestinationView { host: HostView::Ip(original.ip), port: original.port };
            let known = idle::has_key(relay.clients.clients, source);
            let room = relay.clients.cleaned(now).clients.len() < 512;
            match dispatch::datagram_route(policy, registry, target, id) {
                Some(endpoint) if known || room => {
                    &&& action matches ListenerActionView::Send {
                        client,
                        endpoint: e,
                        target: t,
                        payload: p,
                    } && {
                        &&& e == endpoint && t == target && p == payload
                        &&& client < after.clients.clients.len()
                        &&& after.clients.clients[client as int].key == source
                    }
                    &&& known ==> after.clients == relay.clients
                },
                _ => !(action is Send) && !(action is Finish),
            }
        }),
        after.replies == relay.replies,
{
}

/// A datagram whose sender or destination cannot be told ends the listener.
pub proof fn law_unknown_destinations_end_the_listener<E, S, D>(
    relay: ListenerView<E, S>,
    truncated: bool,
    client: Option<SocketAddr>,
    destinations: Seq<SocketAddr>,
    payload: Seq<u8>,
    policy: EngineView,
    registry: Seq<ProxyEndpointView<D>>,
    id: FlowId,
    after: ListenerView<E, S>,
    action: ListenerActionView,
    now: Instant,
)
    requires
        relay.phase is Inbound,
        truncated || client is None || destinations.len() == 0 || destinations.last().port == 0,
        relay.steps(
            ListenerEventView::InboundReceived { truncated, client, destinations, payload },
            policy,
            registry,
            id,
            after,
            action,
            now,
        ),
    ensures
        action is Finish,
        after.phase is Ended,
{
}

/// A reply reaches the client that owns the path, unchanged, from a socket bound to the address
/// that it came from: one that is bound already, or one that is bound for it. A reply that
/// cannot leave from there is dropped.
#[verifier::rlimit(30)]
pub proof fn law_replies_reach_the_owner_from_their_source<E, S, D>(
    relay: ListenerView<E, S>,
    received: ReceivedView,
    payload: Seq<u8>,
    policy: EngineView,
    registry: Seq<ProxyEndpointView<D>>,
    id: FlowId,
    after: ListenerView<E, S>,
    action: ListenerActionView,
    now: Instant,
)
    requires
        relay.phase is Route,
        relay.steps(
            ListenerEventView::RouteReceived { received, payload },
            policy,
            registry,
            id,
            after,
            action,
            now,
        ),
    ensures
        ({
            let owner = relay.phase->Route_ready[relay.phase->Route_index as int].client;
            match received.source.host {
                HostView::Ip(a) if a.spec_is_ipv4() == owner.ip.spec_is_ipv4() => {
                    let from = SocketAddr::spec_new(a, received.source.port);
                    &&& idle::has_key(relay.replies, from) ==> (action
                        matches ListenerActionView::SendReply { socket, client, payload: p } && {
                        &&& socket < after.replies.len()
                        &&& after.replies[socket as int].key == from
                        &&& client == owner
                        &&& p == payload
                    })
                    &&& !idle::has_key(relay.replies, from) ==> action == ListenerActionView::Bind(
                        from,
                    ) && (after.phase matches ListenerPhaseView::Bind {
                        ready,
                        index,
                        left,
                        source,
                        payload: p,
                    } && {
                        &&& ready[index as int].client == owner
                        &&& source == from
                        &&& p == payload
                    })
                },
                _ => !(action is SendReply) && !(action is Bind) && after.replies == relay.replies,
            }
        }),
{
}

/// Once a socket is bound for a reply, the reply goes out of it to the owner of the path. Where
/// none can be bound, the reply is dropped.
pub proof fn law_bound_sockets_send_the_reply<E, S, D>(
    relay: ListenerView<E, S>,
    socket: S,
    policy: EngineView,
    registry: Seq<ProxyEndpointView<D>>,
    id: FlowId,
    after: ListenerView<E, S>,
    action: ListenerActionView,
    now: Instant,
)
    requires
        relay.phase is Bind,
    ensures
        relay.steps(
            ListenerEventView::Bound(socket),
            policy,
            registry,
            id,
            after,
            action,
            now,
        ) ==> (action matches ListenerActionView::SendReply { socket: i, client, payload } && {
            &&& i < after.replies.len()
            &&& after.replies[i as int].key == relay.phase->Bind_source
            &&& after.replies[i as int].value == socket
            &&& after.replies.drop_last() == relay.replies
            &&& client == relay.phase->Bind_ready[relay.phase->Bind_index as int].client
            &&& payload == relay.phase->Bind_payload
        }),
        relay.steps(
            ListenerEventView::BindFailed,
            policy,
            registry,
            id,
            after,
            action,
            now,
        ) ==> !(action is SendReply) && !(action is Finish) && after.replies == relay.replies,
{
    assert(relay.replies.push(
        IdleEntry { key: relay.phase->Bind_source, last: now, value: socket },
    ).drop_last() =~= relay.replies);
}

/// A reply that went out whole keeps its socket and its client in use; one that did not leaves
/// both as they were. Neither ends the listener.
#[verifier::rlimit(30)]
pub proof fn law_whole_replies_keep_the_client<E, S, D>(
    relay: ListenerView<E, S>,
    sent: Option<usize>,
    i: int,
    policy: EngineView,
    registry: Seq<ProxyEndpointView<D>>,
    id: FlowId,
    after: ListenerView<E, S>,
    action: ListenerActionView,
    now: Instant,
)
    requires
        relay.phase is Reply,
        relay.phase->Reply_socket < relay.replies.len(),
        relay.steps(ListenerEventView::ReplySent(sent), policy, registry, id, after, action, now),
        0 <= i < relay.clients.clients.len(),
    ensures
        ({
            let socket = relay.phase->Reply_socket as int;
            let owner = relay.phase->Reply_ready[relay.phase->Reply_index as int].client;
            let whole = sent == Some(relay.phase->Reply_length);
            let before = relay.clients.clients[i];
            &&& after.replies.len() == relay.replies.len()
            &&& after.replies[socket].key == relay.replies[socket].key
            &&& whole ==> after.replies[socket].last == now
            &&& !whole ==> after.replies == relay.replies
            &&& after.clients.clients.len() == relay.clients.clients.len()
            &&& after.clients.clients[i].key == before.key
            &&& after.clients.clients[i].value == before.value
            &&& after.clients.clients[i].last == if whole && before.key == owner {
                now
            } else {
                before.last
            }
            &&& !(action is Finish) && !(action is SendReply)
        }),
{
}

/// After a datagram was sent, its path belongs to the client that sent it, and the client is in
/// use from now on.
#[verifier::rlimit(30)]
pub proof fn law_senders_own_their_paths<E, S, D>(
    relay: ListenerView<E, S>,
    token: usize,
    policy: EngineView,
    registry: Seq<ProxyEndpointView<D>>,
    id: FlowId,
    after: ListenerView<E, S>,
    action: ListenerActionView,
    now: Instant,
)
    requires
        relay.phase is Send,
        relay.phase->Send_client < relay.clients.clients.len(),
        relay.steps(ListenerEventView::Sent(true), policy, registry, id, after, action, now),
        datagram::tokens_of(
            relay.clients.clients[relay.phase->Send_client as int].value@,
        ).contains(token),
    ensures
        ({
            let sender = relay.clients.clients[relay.phase->Send_client as int];
            &&& after.clients.owners.contains_key(token)
            &&& after.clients.owners[token] == sender.key
            &&& after.clients.clients[relay.phase->Send_client as int].last == now
            &&& after.clients.clients[relay.phase->Send_client as int].key == sender.key
            &&& !(action is Finish)
        }),
{
    let c = relay.phase->Send_client as int;
    let sender = relay.clients.clients[c];
    let clients = relay.clients.clients.update(c, IdleEntry { last: now, ..sender });
    let owners = transparent::owners_with(
        relay.clients.owners,
        datagram::tokens_of(sender.value@),
        sender.key,
    );
    let ready = ready_routes(relay.phase->Send_events, owners);
    assert(clients[c].key == sender.key);
    lemma_ready_routes(relay.phase->Send_events, owners);
    lemma_next_ready(clients, owners, ready, 0, token);
}

proof fn lemma_ready_routes(events: Seq<TokenEvent>, owners: Map<usize, SocketAddr>)
    ensures
        forall|i: int|
            0 <= i < ready_routes(events, owners).len() ==> owners.contains_key(
                (#[trigger] ready_routes(events, owners)[i]).token,
            ) && ready_routes(events, owners)[i].client == owners[ready_routes(
                events,
                owners,
            )[i].token],
    decreases events.len(),
{
    if events.len() > 0 {
        lemma_ready_routes(events.drop_last(), owners);
    }
}

proof fn lemma_next_ready<E>(
    clients: Seq<ClientEntry<E>>,
    owners: Map<usize, SocketAddr>,
    ready: Seq<ReadyRoute>,
    index: nat,
    token: usize,
)
    requires
        owners.contains_key(token),
        idle::has_key(clients, owners[token]),
        forall|i: int|
            0 <= i < ready.len() && (#[trigger] ready[i]).token == token ==> ready[i].client
                == owners[token],
    ensures
        next_ready(clients, owners, ready, index).0.contains_key(token),
        next_ready(clients, owners, ready, index).0[token] == owners[token],
    decreases ready.len() - index,
{
    if index < ready.len() {
        let now = ready[index as int];
        if !idle::has_key(clients, now.client) {
            assert(now.token != token);
            lemma_next_ready(clients, owners.remove(now.token), ready, index + 1, token);
        } else if !has_ready_route(clients, now) {
            lemma_next_ready(clients, owners, ready, index + 1, token);
        }
    }
}

/// The paths that are read are those with an event and an owner, each for its owner.
pub proof fn law_paths_with_an_owner_are_read(
    events: Seq<TokenEvent>,
    owners: Map<usize, SocketAddr>,
    route: ReadyRoute,
)
    ensures
        ready_routes(events, owners).contains(route) <==> {
            &&& owners.contains_key(route.token)
            &&& owners[route.token] == route.client
            &&& exists|i: int| 0 <= i < events.len() && (#[trigger] events[i]).token == route.token
        },
    decreases events.len(),
{
    if events.len() > 0 {
        let front = events.drop_last();
        let rest = ready_routes(front, owners);
        let all = ready_routes(events, owners);
        law_paths_with_an_owner_are_read(front, owners, route);
        assert(events.last() == events[events.len() - 1]);
        if all.contains(route) {
            let k = choose|k: int| 0 <= k < all.len() && all[k] == route;
            if k < rest.len() {
                assert(rest[k] == route);
                let i = choose|i: int|
                    0 <= i < front.len() && (#[trigger] front[i]).token == route.token;
                assert(events[i] == front[i]);
            } else {
                assert(events[events.len() - 1].token == route.token);
            }
        }
        if owners.contains_key(route.token) && owners[route.token] == route.client && exists|
            i: int,
        |
            0 <= i < events.len() && (#[trigger] events[i]).token == route.token {
            let i = choose|i: int|
                0 <= i < events.len() && (#[trigger] events[i]).token == route.token;
            if i < front.len() {
                assert(front[i] == events[i]);
                let k = choose|k: int| 0 <= k < rest.len() && rest[k] == route;
                assert(all[k] == route);
            } else {
                assert(all[rest.len() as int] == route);
            }
        }
    }
}

/// When the inbound socket can be read, it is read first, at most 32 times before the paths
/// are; when it would block, the paths are read. With nothing to read the listener waits until
/// the first client falls silent.
pub proof fn law_listener_reads_what_is_ready<E, S, D>(
    relay: ListenerView<E, S>,
    events: Seq<TokenEvent>,
    policy: EngineView,
    registry: Seq<ProxyEndpointView<D>>,
    id: FlowId,
    after: ListenerView<E, S>,
    action: ListenerActionView,
    now: Instant,
)
    requires
        relay.phase is Poll,
        relay.steps(ListenerEventView::Polled(events), policy, registry, id, after, action, now),
    ensures
        ({
            let ready = exists|i: int|
                0 <= i < events.len() && (#[trigger] events[i]).token == 0 && events[i].readable;
            &&& action is ReceiveInbound <==> ready
            &&& ready ==> after.phase == (ListenerPhaseView::Inbound { events, left: 31 })
            &&& events.len() == 0 ==> after.phase is Poll && action == ListenerActionView::Poll(
                idle::soonest(
                    relay.clients.cleaned(now).clients,
                    now,
                    Duration::spec_from_secs(120),
                ),
            )
            &&& after.clients.clients == relay.clients.cleaned(now).clients
            &&& after.replies == idle::in_use(relay.replies, now, Duration::spec_from_secs(120))
            &&& !(action is Finish)
        }),
{
}

/// An interrupted wait is begun again; every other failure of a wait, of the inbound socket or
/// of a path ends the listener with that failure.
pub proof fn law_failures_end_the_listener<E, S, D>(
    relay: ListenerView<E, S>,
    event: ListenerEventView<S>,
    e: ErrorView,
    policy: EngineView,
    registry: Seq<ProxyEndpointView<D>>,
    id: FlowId,
    after: ListenerView<E, S>,
    action: ListenerActionView,
    now: Instant,
)
    requires
        relay.expects(event),
        event == ListenerEventView::<S>::PollFailed(e) || event == ListenerEventView::<
            S,
        >::InboundFailed(e) || event == ListenerEventView::<S>::RouteFailed(e),
        relay.steps(event, policy, registry, id, after, action, now),
    ensures
        event is PollFailed && e.kind == ErrorKind::Interrupted ==> action is Poll && after
            == relay,
        !(event is PollFailed && e.kind == ErrorKind::Interrupted) ==> action
            == ListenerActionView::Finish(e) && after.phase is Ended,
{
}

/// While a burst goes on the same socket is read again, one time fewer; when a path has no more
/// to give, the next one is read.
#[verifier::rlimit(30)]
pub proof fn law_bursts_are_bounded<E, S, D>(
    relay: ListenerView<E, S>,
    event: ListenerEventView<S>,
    policy: EngineView,
    registry: Seq<ProxyEndpointView<D>>,
    id: FlowId,
    after: ListenerView<E, S>,
    action: ListenerActionView,
    now: Instant,
)
    requires
        relay.expects(event),
        relay.phase is Route ==> relay.phase->Route_ready.len() <= usize::MAX,
        relay.steps(event, policy, registry, id, after, action, now),
    ensures
        event is Sent && relay.phase->Send_left > 0 ==> action is ReceiveInbound && after.phase == (
        ListenerPhaseView::Inbound {
            events: relay.phase->Send_events,
            left: (relay.phase->Send_left - 1) as usize,
        }),
        event is Sent && relay.phase->Send_left == 0 ==> !(action is ReceiveInbound),
        event == ListenerEventView::<S>::Sent(false) && relay.phase->Send_left > 0 ==> after.clients
            == relay.clients,
        event is InboundIdle ==> !(action is ReceiveInbound) && !(action is Finish),
        event is RouteIdle && after.phase is Route ==> relay.phase->Route_index
            < after.phase->Route_index && after.phase->Route_left == 31,
        event is RouteIdle && after.phase is Poll ==> action is Poll,
{
    if event is RouteIdle {
        lemma_next_ready_goes_on(
            relay.clients.clients,
            relay.clients.owners,
            relay.phase->Route_ready,
            relay.phase->Route_index as nat + 1,
        );
    }
}

proof fn lemma_next_ready_goes_on<E>(
    clients: Seq<ClientEntry<E>>,
    owners: Map<usize, SocketAddr>,
    ready: Seq<ReadyRoute>,
    index: nat,
)
    ensures
        next_ready(clients, owners, ready, index).1 >= index,
    decreases ready.len() - index,
{
    if index < ready.len() {
        let now = ready[index as int];
        if !idle::has_key(clients, now.client) {
            lemma_next_ready_goes_on(clients, owners.remove(now.token), ready, index + 1);
        } else if !has_ready_route(clients, now) {
            lemma_next_ready_goes_on(clients, owners, ready, index + 1);
        }
    }
}

} // verus!
