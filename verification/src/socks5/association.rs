//! The life of a SOCKS5 UDP association.

use crate::datagram::{DatagramRouteSet, ReceivedDatagram, RouteView};
use crate::dispatch;
use crate::error;
use crate::error::{Error, ErrorKind, ErrorView};
use crate::flow::{DestinationView, FlowId};
use crate::idle;
use crate::net::{IpAddr, SocketAddr};
use crate::outbound::{OutboundRegistry, ProxyEndpointView};
use crate::plan::{Endpoint, EndpointView};
use crate::policy::EngineView;
use crate::proxy::Target;
use crate::runtime::Runtime;
use crate::socks5;
use crate::socks5::UdpClientHint;
use crate::time::{Duration, Instant};
use vstd::prelude::*;
use vstd::string::*;

verus! {

pub const UDP_IDLE_TIMEOUT_SECS: u64 = 120;

pub const MAX_UDP_PACKET: usize = 65_535;

pub const MAX_UDP_EVENT_BURST: usize = 32;

pub const MAX_PENDING_CLIENT_REPLIES: usize = 64;

/// How often the control connection is read for one event.
pub const MAX_CONTROL_READS: usize = 4;

/// Whether a datagram comes from the client: from its address once that is known,
/// and before that from the machine of the control connection.
pub open spec fn is_from_client(
    source: SocketAddr,
    control_ip: IpAddr,
    client: Option<SocketAddr>,
) -> bool {
    match client {
        Some(c) => source == c,
        None => source.ip == control_ip,
    }
}

pub fn is_client_packet(source: SocketAddr, control_ip: IpAddr, client: Option<SocketAddr>) -> (r:
    bool)
    ensures
        r == is_from_client(source, control_ip, client),
{
    match client {
        Some(c) => source == c,
        None => source.ip == control_ip,
    }
}

#[derive(Debug)]
struct PendingReply {
    packet: Vec<u8>,
    client: SocketAddr,
}

/// The state of an association: whose it is, when it was last used, and which
/// replies wait for the client-facing socket.
#[derive(Debug)]
pub struct UdpAssociation {
    control_ip: IpAddr,
    client: Option<SocketAddr>,
    last_activity: Instant,
    pending: Vec<PendingReply>,
    relay_writable: bool,
}

#[verifier::ext_equal]
pub struct AssociationView {
    pub control_ip: IpAddr,
    pub client: Option<SocketAddr>,
    pub last_activity: Instant,
    pub pending: Seq<(Seq<u8>, SocketAddr)>,
    pub relay_writable: bool,
}

impl View for UdpAssociation {
    type V = AssociationView;

    closed spec fn view(&self) -> AssociationView {
        AssociationView {
            control_ip: self.control_ip,
            client: self.client,
            last_activity: self.last_activity,
            pending: self.pending@.map_values(|p: PendingReply| (p.packet@, p.client)),
            relay_writable: self.relay_writable,
        }
    }
}

pub open spec fn hint_failure() -> ErrorView {
    error::failure(
        ErrorKind::PermissionDenied,
        "SOCKS5 UDP client hint does not match TCP control peer"@,
    )
}

/// The hint names another machine than that of the control connection.
pub open spec fn is_foreign(hint: UdpClientHint, control_peer: SocketAddr) -> bool {
    hint.ip matches Some(a) && a != control_peer.ip
}

impl AssociationView {
    /// The client is on the machine of the control connection, all replies that
    /// wait are for it, and they are not too many.
    pub open spec fn wf(self) -> bool {
        &&& self.client matches Some(c) ==> c.ip == self.control_ip
        &&& self.pending.len() <= MAX_PENDING_CLIENT_REPLIES
        &&& forall|i: int|
            0 <= i < self.pending.len() ==> self.client == Some((#[trigger] self.pending[i]).1)
    }

    /// What a send attempt makes of the association.
    pub open spec fn replied(
        self,
        packet: Seq<u8>,
        client: SocketAddr,
        result: Result<nat, ErrorKind>,
        now: Instant,
    ) -> AssociationView {
        match result {
            Ok(n) => if n == packet.len() {
                AssociationView { last_activity: now, ..self }
            } else {
                self
            },
            Err(kind) => if (kind == ErrorKind::WouldBlock || kind == ErrorKind::Interrupted)
                && self.pending.len() < MAX_PENDING_CLIENT_REPLIES {
                AssociationView {
                    last_activity: now,
                    pending: self.pending.push((packet, client)),
                    ..self
                }
            } else {
                self
            },
        }
    }

    /// Whether the next waiting reply is tried after this attempt at the first.
    pub open spec fn flush_goes_on(result: Result<nat, ErrorKind>) -> bool {
        result != Err::<nat, ErrorKind>(ErrorKind::WouldBlock)
    }

    /// The replies that still wait after an attempt at the first.
    pub open spec fn flushed(self, result: Result<nat, ErrorKind>) -> AssociationView {
        match result {
            Ok(_) => AssociationView { pending: self.pending.drop_first(), ..self },
            Err(kind) => if kind == ErrorKind::WouldBlock || kind == ErrorKind::Interrupted {
                self
            } else {
                AssociationView { pending: self.pending.drop_first(), ..self }
            },
        }
    }
}

/// The outcome of a send without its message.
pub open spec fn sent(result: Result<usize, Error>) -> Result<nat, ErrorKind> {
    match result {
        Ok(n) => Ok(n as nat),
        Err(e) => Err(e@.kind),
    }
}

impl UdpAssociation {
    /// Opens an association for the peer of a control connection; a client that
    /// names another machine gets a refusal.
    pub fn open(hint: UdpClientHint, control_peer: SocketAddr, now: Instant) -> (r: Result<
        UdpAssociation,
        (Vec<u8>, Error),
    >)
        ensures
            match r {
                Ok(a) => !is_foreign(hint, control_peer) && a@.wf() && a@ == (AssociationView {
                    control_ip: control_peer.ip,
                    client: match hint.port {
                        Some(port) => Some(SocketAddr::spec_new(control_peer.ip, port)),
                        None => None,
                    },
                    last_activity: now,
                    pending: Seq::empty(),
                    relay_writable: false,
                }),
                Err((reply, e)) => is_foreign(hint, control_peer) && reply@ == socks5::reply(
                    2,
                    None,
                ) && e@ == hint_failure(),
            },
    {
        if let Some(address) = hint.ip {
            if address != control_peer.ip {
                return Err(
                    (
                        socks5::encode_reply(2, None),
                        Error::new(
                            ErrorKind::PermissionDenied,
                            "SOCKS5 UDP client hint does not match TCP control peer",
                        ),
                    ),
                );
            }
        }
        let client = match hint.port {
            Some(port) => Some(SocketAddr::new(control_peer.ip, port)),
            None => None,
        };
        let r = UdpAssociation {
            control_ip: control_peer.ip,
            client,
            last_activity: now,
            pending: Vec::new(),
            relay_writable: false,
        };
        assert(r@.pending =~= Seq::empty());
        Ok(r)
    }

    /// The time that is left before the association ends for want of use.
    pub fn remaining(&self, now: Instant) -> (r: Option<Duration>)
        ensures
            match r {
                Some(d) => d.nanos == 120_000_000_000 - idle::unused(self@.last_activity, now)
                    && d.nanos > 0,
                None => idle::unused(self@.last_activity, now) >= 120_000_000_000,
            },
    {
        let used = now.since(self.last_activity);
        let limit = Duration::from_secs(UDP_IDLE_TIMEOUT_SECS);
        if used.nanos >= limit.nanos {
            None
        } else {
            Some(Duration { nanos: limit.nanos - used.nanos })
        }
    }

    /// Whether a datagram at the client-facing socket comes from the client.
    pub fn accepts(&self, source: SocketAddr) -> (r: bool)
        ensures
            r == is_from_client(source, self@.control_ip, self@.client),
    {
        is_client_packet(source, self.control_ip, self.client)
    }

    /// A datagram of the client went on its way: the first one fixes its address.
    pub fn packet_sent(&mut self, source: SocketAddr, now: Instant)
        requires
            old(self)@.wf(),
            is_from_client(source, old(self)@.control_ip, old(self)@.client),
        ensures
            final(self)@.wf(),
            final(self)@ == (AssociationView {
                client: Some(source),
                last_activity: now,
                ..old(self)@
            }),
            old(self)@.client is Some ==> final(self)@.client == old(self)@.client,
    {
        if self.client.is_none() {
            assert(old(self)@.pending.len() == 0) by {
                if old(self)@.pending.len() > 0 {
                    assert(old(self)@.client == Some(old(self)@.pending[0].1));
                }
            }
            self.client = Some(source);
        }
        self.last_activity = now;
        assert(self@.pending == old(self)@.pending);
    }

    /// The reply for the client, where its address is known.
    pub fn reply_packet(&self, received: &ReceivedDatagram, payload: &[u8]) -> (r: Result<
        Option<(Vec<u8>, SocketAddr)>,
        Error,
    >)
        ensures
            match self@.client {
                None => r matches Ok(None),
                Some(c) => match socks5::udp_response(received@.source, payload@) {
                    Ok(b) => r matches Ok(Some((packet, client))) && packet@ == b && client == c,
                    Err(problem) => r matches Err(e) && e@ == problem,
                },
            },
    {
        match self.client {
            None => Ok(None),
            Some(client) => match socks5::encode_udp_response(&received.source, payload) {
                Ok(packet) => Ok(Some((packet, client))),
                Err(e) => Err(e),
            },
        }
    }

    /// A reply was handed to the client-facing socket; one that must wait is kept,
    /// as long as there is room.
    pub fn reply_attempted(
        &mut self,
        packet: Vec<u8>,
        client: SocketAddr,
        result: Result<usize, Error>,
        now: Instant,
    )
        requires
            old(self)@.wf(),
            old(self)@.client == Some(client),
        ensures
            final(self)@.wf(),
            final(self)@ == old(self)@.replied(packet@, client, sent(result), now),
    {
        match result {
            Ok(n) => {
                if n == packet.len() {
                    self.last_activity = now;
                }
            },
            Err(e) => {
                if (e.kind == ErrorKind::WouldBlock || e.kind == ErrorKind::Interrupted)
                    && self.pending.len() < MAX_PENDING_CLIENT_REPLIES {
                    let ghost bytes = packet@;
                    self.pending.push(PendingReply { packet, client });
                    self.last_activity = now;
                    assert(self@.pending =~= old(self)@.pending.push((bytes, client)));
                }
            },
        }
        assert(self@ =~= old(self)@.replied(packet@, client, sent(result), now));
    }

    /// The first reply that waits.
    pub fn next_pending(&self) -> (r: Option<(&[u8], SocketAddr)>)
        ensures
            match r {
                Some((packet, client)) => self@.pending.len() > 0 && self@.pending[0] == (
                    packet@,
                    client,
                ),
                None => self@.pending.len() == 0,
            },
    {
        if self.pending.len() == 0 {
            return None;
        }
        let first = &self.pending[0];
        Some((first.packet.as_slice(), first.client))
    }

    /// The first waiting reply was handed to the client-facing socket. Says whether
    /// the next one is tried, and whether this one went out whole.
    pub fn flush_attempted(&mut self, result: Result<usize, Error>) -> (r: (bool, bool))
        requires
            old(self)@.wf(),
            old(self)@.pending.len() > 0,
        ensures
            final(self)@.wf(),
            final(self)@ == old(self)@.flushed(sent(result)),
            r.0 == AssociationView::flush_goes_on(sent(result)),
            r.1 == (result matches Ok(n) && n == old(self)@.pending[0].0.len()),
    {
        match result {
            Ok(n) => {
                let first = self.pending.remove(0);
                assert(self@.pending =~= old(self)@.pending.drop_first());
                (true, n == first.packet.len())
            },
            Err(e) => {
                if e.kind == ErrorKind::WouldBlock {
                    (false, false)
                } else if e.kind == ErrorKind::Interrupted {
                    (true, false)
                } else {
                    let _first = self.pending.remove(0);
                    assert(self@.pending =~= old(self)@.pending.drop_first());
                    (true, false)
                }
            },
        }
    }

    /// The association was used.
    pub fn touch(&mut self, now: Instant)
        requires
            old(self)@.wf(),
        ensures
            final(self)@.wf(),
            final(self)@ == (AssociationView { last_activity: now, ..old(self)@ }),
    {
        self.last_activity = now;
        assert(self@.pending == old(self)@.pending);
    }

    /// Whether the client-facing socket is to wait for writability from now on,
    /// where that changes: it does exactly while replies wait.
    pub fn interest_change(&mut self) -> (r: Option<bool>)
        requires
            old(self)@.wf(),
        ensures
            final(self)@.wf(),
            final(self)@ == (AssociationView {
                relay_writable: old(self)@.pending.len() > 0,
                ..old(self)@
            }),
            r == if (old(self)@.pending.len() > 0) != old(self)@.relay_writable {
                Some(old(self)@.pending.len() > 0)
            } else {
                None
            },
    {
        let wants = self.pending.len() > 0;
        if wants != self.relay_writable {
            self.relay_writable = wants;
            assert(self@.pending == old(self)@.pending);
            Some(wants)
        } else {
            None
        }
    }
}

/// A datagram of a client: the endpoint that carries it, its target and payload,
/// or nothing where it is dropped.
pub open spec fn client_route<D>(
    policy: EngineView,
    registry: Seq<ProxyEndpointView<D>>,
    packet: Seq<u8>,
    id: FlowId,
) -> Option<(EndpointView, DestinationView, Seq<u8>)> {
    match socks5::udp_request(packet) {
        Err(_) => None,
        Ok((target, payload)) => match dispatch::datagram_route(policy, registry, target, id) {
            None => None,
            Some(e) => Some((e, target, payload)),
        },
    }
}

pub fn route_client_packet<'a, D>(
    runtime: &Runtime,
    outbounds: &OutboundRegistry<D>,
    packet: &'a [u8],
    id: FlowId,
) -> (r: Option<(Endpoint, Target, &'a [u8])>)
    ensures
        match r {
            Some((e, t, payload)) => client_route(runtime@, outbounds@, packet@, id) == Some(
                (e@, t@, payload@),
            ),
            None => client_route(runtime@, outbounds@, packet@, id) is None,
        },
{
    match socks5::parse_udp_request(packet) {
        Err(_) => None,
        Ok((target, payload)) => match dispatch::datagram_endpoint(
            runtime,
            outbounds,
            &target,
            id,
        ) {
            None => None,
            Some(endpoint) => Some((endpoint, target, payload)),
        },
    }
}

/// Whether the control connection is still there.
#[derive(Debug)]
pub enum ControlStep {
    Closed,
    Open,
    /// Read from it and see.
    Read,
    Fail(Error),
}

#[verifier::ext_equal]
pub enum ControlStepView {
    Closed,
    Open,
    Read,
    Fail(ErrorView),
}

impl View for ControlStep {
    type V = ControlStepView;

    open spec fn view(&self) -> ControlStepView {
        match self {
            ControlStep::Closed => ControlStepView::Closed,
            ControlStep::Open => ControlStepView::Open,
            ControlStep::Read => ControlStepView::Read,
            ControlStep::Fail(e) => ControlStepView::Fail(e@),
        }
    }
}

/// Looks at the control connection after an event; it owns the association.
#[derive(Clone, Copy, Debug, PartialEq, Eq, Structural)]
pub struct ControlCheck {
    pub reads_left: usize,
}

/// The connection is gone.
pub open spec fn is_gone(kind: ErrorKind) -> bool {
    kind == ErrorKind::ConnectionReset || kind == ErrorKind::BrokenPipe || kind
        == ErrorKind::NotConnected
}

impl ControlCheck {
    /// A read was used up.
    pub open spec fn again(self) -> (ControlCheck, ControlStepView) {
        if self.reads_left > 1 {
            (
                ControlCheck { reads_left: (self.reads_left - 1) as usize },
                ControlStepView::Read,
            )
        } else {
            (ControlCheck { reads_left: 0 }, ControlStepView::Open)
        }
    }

    pub open spec fn next(self, result: Result<usize, Error>) -> (ControlCheck, ControlStepView) {
        match result {
            Ok(n) => if n == 0 {
                (self, ControlStepView::Closed)
            } else {
                self.again()
            },
            Err(e) => if e@.kind == ErrorKind::WouldBlock {
                (self, ControlStepView::Open)
            } else if e@.kind == ErrorKind::Interrupted {
                self.again()
            } else if is_gone(e@.kind) {
                (self, ControlStepView::Closed)
            } else {
                (self, ControlStepView::Fail(e@))
            },
        }
    }

    /// Starts with what the event says.
    pub fn start(closed: bool, readable: bool) -> (r: (ControlCheck, ControlStep))
        ensures
            r.0.reads_left == MAX_CONTROL_READS,
            r.1@ == if closed {
                ControlStepView::Closed
            } else if readable {
                ControlStepView::Read
            } else {
                ControlStepView::Open
            },
    {
        let check = ControlCheck { reads_left: MAX_CONTROL_READS };
        if closed {
            (check, ControlStep::Closed)
        } else if readable {
            (check, ControlStep::Read)
        } else {
            (check, ControlStep::Open)
        }
    }

    fn retry(&mut self) -> (r: ControlStep)
        ensures
            (*final(self), r@) == old(self).again(),
    {
        if self.reads_left > 1 {
            self.reads_left = self.reads_left - 1;
            ControlStep::Read
        } else {
            self.reads_left = 0;
            ControlStep::Open
        }
    }

    /// What follows a read of the control connection.
    pub fn step(&mut self, result: Result<usize, Error>) -> (r: ControlStep)
        ensures
            (*final(self), r@) == old(self).next(result),
    {
        match result {
            Ok(n) => if n == 0 {
                ControlStep::Closed
            } else {
                self.retry()
            },
            Err(e) => if e.kind == ErrorKind::WouldBlock {
                ControlStep::Open
            } else if e.kind == ErrorKind::Interrupted {
                self.retry()
            } else if e.kind == ErrorKind::ConnectionReset || e.kind == ErrorKind::BrokenPipe
                || e.kind == ErrorKind::NotConnected {
                ControlStep::Closed
            } else {
                ControlStep::Fail(e)
            },
        }
    }
}

/// Waiting replies go out in the order in which they came, and none is sent twice:
/// an attempt at the first either leaves all of them or takes just the first away.
pub proof fn law_replies_keep_their_order(a: AssociationView, result: Result<nat, ErrorKind>)
    requires
        a.pending.len() > 0,
    ensures
        a.flushed(result).pending == a.pending || a.flushed(result).pending
            == a.pending.drop_first(),
        result is Ok ==> a.flushed(result).pending == a.pending.drop_first(),
{
}

pub const UDP_CONTROL_TOKEN: usize = 0;

pub const UDP_CLIENT_TOKEN: usize = 1;

pub const UDP_OUTBOUND_FIRST_TOKEN: usize = 2;

/// What a poll says of one of its sources.
#[derive(Clone, Copy, Debug, PartialEq, Eq, Structural)]
pub struct ReadyEvent {
    pub token: usize,
    pub readable: bool,
    pub writable: bool,
    /// The reading side is closed, or there is an error.
    pub closed: bool,
}

/// The events of the control connection, which are looked at first.
pub open spec fn control_events(events: Seq<ReadyEvent>) -> Seq<ReadyEvent>
    decreases events.len(),
{
    if events.len() == 0 {
        Seq::empty()
    } else {
        let front = control_events(events.drop_last());
        if events.last().token == UDP_CONTROL_TOKEN {
            front.push(events.last())
        } else {
            front
        }
    }
}

/// The tokens of the routes that are ready.
pub open spec fn outbound_tokens<E>(
    events: Seq<ReadyEvent>,
    routes: Seq<RouteView<E>>,
) -> Seq<usize>
    decreases events.len(),
{
    if events.len() == 0 {
        Seq::empty()
    } else {
        let front = outbound_tokens(events.drop_last(), routes);
        if owned(routes, events.last().token) {
            front.push(events.last().token)
        } else {
            front
        }
    }
}

pub open spec fn owned<E>(routes: Seq<RouteView<E>>, token: usize) -> bool {
    exists|i: int| 0 <= i < routes.len() && (#[trigger] routes[i]).owns(token as nat)
}

pub open spec fn client_is_readable(events: Seq<ReadyEvent>) -> bool {
    exists|i: int|
        0 <= i < events.len() && (#[trigger] events[i]).token == UDP_CLIENT_TOKEN
            && events[i].readable
}

pub open spec fn client_is_writable(events: Seq<ReadyEvent>) -> bool {
    exists|i: int|
        0 <= i < events.len() && (#[trigger] events[i]).token == UDP_CLIENT_TOKEN
            && events[i].writable
}

/// What a batch of events asks for, in the order of the fields: the control
/// connection owns the association, so its events come before any datagram.
#[derive(Debug)]
pub struct Batch {
    pub control: Vec<ReadyEvent>,
    pub client_readable: bool,
    pub outbound: Vec<usize>,
    pub client_writable: bool,
}

impl Batch {
    pub fn of<E>(events: &[ReadyEvent], routes: &DatagramRouteSet<E>) -> (r: Batch)
        ensures
            r.control@ == control_events(events@),
            r.client_readable == client_is_readable(events@),
            r.outbound@ == outbound_tokens(events@, routes@),
            r.client_writable == client_is_writable(events@),
    {
        let mut control: Vec<ReadyEvent> = Vec::new();
        let mut client_readable = false;
        let mut client_writable = false;
        let mut outbound: Vec<usize> = Vec::new();
        let mut i: usize = 0;
        assert(events@.take(0).len() == 0);
        while i < events.len()
            invariant
                i <= events@.len(),
                control@ == control_events(events@.take(i as int)),
                outbound@ == outbound_tokens(events@.take(i as int), routes@),
                client_readable == client_is_readable(events@.take(i as int)),
                client_writable == client_is_writable(events@.take(i as int)),
            decreases events@.len() - i,
        {
            let event = events[i];
            let ghost front = events@.take(i as int);
            let ghost all = events@.take(i + 1);
            assert(all.drop_last() =~= front);
            assert(all.last() == event);
            if event.token == UDP_CONTROL_TOKEN {
                control.push(event);
            }
            proof {
                assert(all[i as int] == event);
                assert(forall|j: int| 0 <= j < i ==> #[trigger] all[j] == front[j]);
                if client_is_readable(front) {
                    let j = choose|j: int|
                        0 <= j < front.len() && (#[trigger] front[j]).token == UDP_CLIENT_TOKEN
                            && front[j].readable;
                    assert(all[j].readable);
                }
                if client_is_writable(front) {
                    let j = choose|j: int|
                        0 <= j < front.len() && (#[trigger] front[j]).token == UDP_CLIENT_TOKEN
                            && front[j].writable;
                    assert(all[j].writable);
                }
            }
            if event.token == UDP_CLIENT_TOKEN && event.readable {
                client_readable = true;
            }
            if event.token == UDP_CLIENT_TOKEN && event.writable {
                client_writable = true;
            }
            if routes.owns_token(event.token) {
                outbound.push(event.token);
            }
            i = i + 1;
        }
        assert(events@.take(i as int) =~= events@);
        Batch { control, client_readable, outbound, client_writable }
    }
}

/// Events of the control connection are kept in order; the client's socket is readable or
/// writable when some event says so; a path is read when an event names a token that it owns.
#[verifier::rlimit(30)]
pub proof fn law_events_are_sorted_by_their_token<E>(
    events: Seq<ReadyEvent>,
    routes: Seq<RouteView<E>>,
    e: ReadyEvent,
    token: usize,
)
    ensures
        control_events(events).contains(e) <==> events.contains(e) && e.token == 0,
        outbound_tokens(events, routes).contains(token) <==> {
            &&& exists|i: int| 0 <= i < events.len() && (#[trigger] events[i]).token == token
            &&& exists|i: int|
                0 <= i < routes.len() && (#[trigger] routes[i]).first_token <= token
                    < routes[i].first_token + routes[i].token_count
        },
        client_is_readable(events) <==> exists|i: int|
            0 <= i < events.len() && (#[trigger] events[i]).token == 1 && events[i].readable,
        client_is_writable(events) <==> exists|i: int|
            0 <= i < events.len() && (#[trigger] events[i]).token == 1 && events[i].writable,
    decreases events.len(),
{
    let owns = exists|i: int|
        0 <= i < routes.len() && (#[trigger] routes[i]).first_token <= token
            < routes[i].first_token + routes[i].token_count;
    assert(owned(routes, token) <==> owns) by {
        if owned(routes, token) {
            let i = choose|i: int|
                0 <= i < routes.len() && (#[trigger] routes[i]).owns(token as nat);
            assert(routes[i].first_token <= token);
        }
        if owns {
            let i = choose|i: int|
                0 <= i < routes.len() && (#[trigger] routes[i]).first_token <= token
                    < routes[i].first_token + routes[i].token_count;
            assert(routes[i].owns(token as nat));
        }
    }
    if events.len() > 0 {
        let front = events.drop_last();
        let last = events.last();
        law_events_are_sorted_by_their_token(front, routes, e, token);
        assert(last == events[events.len() - 1]);
        assert(front.push(last) =~= events);
        lemma_pushed(front, last, e);
        lemma_pushed(control_events(front), last, e);
        lemma_pushed(outbound_tokens(front, routes), last.token, token);
        if exists|i: int| 0 <= i < front.len() && (#[trigger] front[i]).token == token {
            let i = choose|i: int| 0 <= i < front.len() && (#[trigger] front[i]).token == token;
            assert(events[i].token == token);
        }
        if exists|i: int| 0 <= i < events.len() && (#[trigger] events[i]).token == token {
            let i = choose|i: int| 0 <= i < events.len() && (#[trigger] events[i]).token == token;
            if i < front.len() {
                assert(front[i].token == token);
            }
        }
    }
}

proof fn lemma_pushed<A>(s: Seq<A>, last: A, e: A)
    ensures
        s.push(last).contains(e) <==> s.contains(e) || e == last,
{
    let after = s.push(last);
    assert(after[s.len() as int] == last);
    if s.contains(e) {
        let i = choose|i: int| 0 <= i < s.len() && s[i] == e;
        assert(after[i] == e);
    }
    if after.contains(e) && e != last {
        let i = choose|i: int| 0 <= i < after.len() && after[i] == e;
        assert(s[i] == e);
    }
}

/// A reply that the client's socket does not take now waits behind the others while fewer than
/// 64 wait. One that went out whole, or that waits, keeps the association in use; every other
/// is dropped.
pub proof fn law_blocked_replies_wait(
    a: AssociationView,
    packet: Seq<u8>,
    client: SocketAddr,
    result: Result<nat, ErrorKind>,
    now: Instant,
)
    ensures
        ({
            let after = a.replied(packet, client, result, now);
            let blocked = result == Err::<nat, ErrorKind>(ErrorKind::WouldBlock) || result == Err::<
                nat,
                ErrorKind,
            >(ErrorKind::Interrupted);
            let waits = blocked && a.pending.len() < 64;
            let whole = result == Ok::<nat, ErrorKind>(packet.len());
            &&& waits ==> after.pending == a.pending + seq![(packet, client)]
            &&& !waits ==> after.pending == a.pending
            &&& after.last_activity == if waits || whole {
                now
            } else {
                a.last_activity
            }
            &&& after.client == a.client
            &&& after.control_ip == a.control_ip
            &&& after.relay_writable == a.relay_writable
        }),
{
    assert(a.pending.push((packet, client)) =~= a.pending + seq![(packet, client)]);
}

/// A waiting reply leaves once the socket took it or failed; it stays first while the socket
/// would block or was interrupted. Sending goes on until the socket would block.
pub proof fn law_waiting_replies_leave_when_sent(a: AssociationView, result: Result<nat, ErrorKind>)
    requires
        a.pending.len() > 0,
    ensures
        ({
            let after = a.flushed(result);
            let blocked = result == Err::<nat, ErrorKind>(ErrorKind::WouldBlock) || result == Err::<
                nat,
                ErrorKind,
            >(ErrorKind::Interrupted);
            &&& blocked ==> after.pending == a.pending
            &&& !blocked ==> seq![a.pending[0]] + after.pending == a.pending
            &&& AssociationView::flush_goes_on(result) <==> result != Err::<nat, ErrorKind>(
                ErrorKind::WouldBlock,
            )
            &&& after.client == a.client && after.last_activity == a.last_activity
        }),
{
    assert(seq![a.pending[0]] + a.pending.drop_first() =~= a.pending);
}

/// The control connection has closed when it gives no more bytes or was lost, and is open when
/// it would block. What it sends is thrown away, and it is read at most four times in a row.
/// Any other error is passed on.
pub proof fn law_control_connection_tells_its_end(check: ControlCheck, result: Result<usize, Error>)
    ensures
        ({
            let (after, step) = check.next(result);
            let more = match result {
                Ok(n) => n > 0,
                Err(e) => e@.kind == ErrorKind::Interrupted,
            };
            &&& step is Closed <==> match result {
                Ok(n) => n == 0,
                Err(e) => e@.kind == ErrorKind::ConnectionReset || e@.kind
                    == ErrorKind::BrokenPipe || e@.kind == ErrorKind::NotConnected,
            }
            &&& step is Read <==> more && check.reads_left > 1
            &&& step is Read ==> after.reads_left == check.reads_left - 1
            &&& step is Open <==> (more && check.reads_left <= 1) || (result matches Err(e)
                && e@.kind == ErrorKind::WouldBlock)
            &&& step matches ControlStepView::Fail(f) ==> (result matches Err(e) && e@ == f)
        }),
{
}

/// An event of the control connection ends the association when it tells of a close, has the
/// connection read when it tells of bytes, and means nothing otherwise.
pub proof fn law_control_check_begins_with_the_event(
    closed: bool,
    readable: bool,
    r: (ControlCheck, ControlStep),
)
    requires
        call_ensures(ControlCheck::start, (closed, readable), r),
    ensures
        r.0.reads_left == 4,
        r.1@ is Closed <==> closed,
        r.1@ is Read <==> readable && !closed,
        r.1@ is Open <==> !readable && !closed,
{
}

/// An association belongs to the peer of its control connection. A hint at another address is
/// refused, with a reply that says so; a port in the hint is the client's from the start.
pub proof fn law_association_belongs_to_the_control_peer(
    hint: UdpClientHint,
    control_peer: SocketAddr,
    now: Instant,
    r: Result<UdpAssociation, (Vec<u8>, Error)>,
)
    requires
        call_ensures(UdpAssociation::open, (hint, control_peer, now), r),
    ensures
        r is Ok <==> (hint.ip is None || hint.ip == Some(control_peer.ip)),
        r matches Ok(a) ==> {
            &&& a@.control_ip == control_peer.ip
            &&& a@.client is Some <==> hint.port is Some
            &&& a@.client matches Some(c) ==> c.ip == control_peer.ip && hint.port == Some(c.port)
            &&& a@.last_activity == now
            &&& a@.pending.len() == 0
            &&& !a@.relay_writable
        },
        r matches Err((reply, e)) ==> e@.kind == ErrorKind::PermissionDenied && reply@
            == socks5::reply(2, None),
{
}

/// The association is used up 120 seconds after it was last in use, and not before.
pub proof fn law_association_ends_after_two_minutes(
    association: &UdpAssociation,
    now: Instant,
    r: Option<Duration>,
)
    requires
        call_ensures(UdpAssociation::remaining, (association, now), r),
    ensures
        r is None <==> now.nanos >= association@.last_activity.nanos + 120_000_000_000,
        r matches Some(d) ==> now.nanos >= association@.last_activity.nanos ==> now.nanos + d.nanos
            == association@.last_activity.nanos + 120_000_000_000,
{
}

/// Until a client is known, every port of the control peer may send; after that the client
/// alone may.
pub proof fn law_only_the_client_may_send(
    source: SocketAddr,
    control_ip: IpAddr,
    client: Option<SocketAddr>,
)
    ensures
        client is None ==> (is_from_client(source, control_ip, client) <==> source.ip
            == control_ip),
        client is Some ==> (is_from_client(source, control_ip, client) <==> client == Some(source)),
{
}

/// A packet of the client is sent on when it is a request and the policy routes its target:
/// over the endpoint that the policy names, with the target and the payload of the request.
pub proof fn law_requests_name_target_and_payload<D>(
    policy: EngineView,
    registry: Seq<ProxyEndpointView<D>>,
    packet: Seq<u8>,
    id: FlowId,
)
    ensures
        client_route(policy, registry, packet, id) matches Some((endpoint, target, payload)) ==> {
            &&& socks5::udp_request(packet) == Ok::<(DestinationView, Seq<u8>), ErrorView>(
                (target, payload),
            )
            &&& dispatch::datagram_route(policy, registry, target, id) == Some(endpoint)
        },
        client_route(policy, registry, packet, id) is None ==> (socks5::udp_request(packet)
            matches Ok(request) ==> dispatch::datagram_route(policy, registry, request.0, id)
            is None),
{
}

/// A reply goes to the client, wrapped with the address that it came from; before a client is
/// known there is nobody to send it to.
pub proof fn law_replies_are_wrapped_for_the_client(
    association: &UdpAssociation,
    received: &ReceivedDatagram,
    payload: &[u8],
    r: Result<Option<(Vec<u8>, SocketAddr)>, Error>,
)
    requires
        call_ensures(UdpAssociation::reply_packet, (association, received, payload), r),
    ensures
        r matches Ok(None) <==> association@.client is None,
        r matches Ok(Some((packet, client))) ==> association@.client == Some(client)
            && socks5::udp_response(received@.source, payload@) == Ok::<Seq<u8>, ErrorView>(
            packet@,
        ),
        r matches Err(e) ==> socks5::udp_response(received@.source, payload@) == Err::<
            Seq<u8>,
            ErrorView,
        >(e@),
{
}

} // verus!
