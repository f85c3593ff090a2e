//! Datagram paths: which remote peers an association trusts, and which routes
//! one inbound association has opened.

use crate::dns::engine::DnsEngine;
use crate::error;
use crate::error::{Error, ErrorKind, ErrorView};
use crate::flow::{DestinationHost, DestinationView, HostView};
use crate::net::SocketAddr;
use crate::plan::{Endpoint, EndpointView};
use crate::proxy;
use crate::proxy::Target;
use crate::text;
use crate::time::Instant;
use vstd::prelude::*;
use vstd::string::*;

verus! {

pub const MAX_DATAGRAM_REMOTE_PEERS: usize = 256;

/// How many datagrams of strangers one receive discards at most.
pub const MAX_UNTRUSTED_DRAIN_PER_RECEIVE: usize = 32;

/// How many endpoints one inbound association can route to.
pub const MAX_DATAGRAM_ROUTES: usize = 32;

#[derive(Debug, PartialEq, Eq)]
pub struct ReceivedDatagram {
    pub source: Target,
    pub length: usize,
}

#[verifier::ext_equal]
pub struct ReceivedView {
    pub source: DestinationView,
    pub length: nat,
}

impl View for ReceivedDatagram {
    type V = ReceivedView;

    open spec fn view(&self) -> ReceivedView {
        ReceivedView { source: self.source@, length: self.length as nat }
    }
}

impl Clone for ReceivedDatagram {
    fn clone(&self) -> (r: ReceivedDatagram)
        ensures
            r@ == self@,
    {
        ReceivedDatagram { source: self.source.clone(), length: self.length }
    }
}

pub open spec fn peer_limit_failure() -> ErrorView {
    error::failure(
        ErrorKind::QuotaExceeded,
        "datagram association remote peer limit 256 reached"@,
    )
}

pub open spec fn partial_send_failure() -> ErrorView {
    error::failure(ErrorKind::WriteZero, "UDP socket reported a partial datagram send"@)
}

pub open spec fn no_address_failure() -> ErrorView {
    error::failure(
        ErrorKind::AddrNotAvailable,
        "datagram target resolved to no usable address"@,
    )
}

/// DIRECT datagram execution: the remote peers that it has sent to.
///
/// The sockets are dedicated outbound sockets, so the client-facing relay socket
/// is never also the public-network socket.
#[derive(Debug)]
pub struct DirectDatagramAssociation {
    remote_peers: Vec<SocketAddr>,
}

impl View for DirectDatagramAssociation {
    type V = Seq<SocketAddr>;

    closed spec fn view(&self) -> Seq<SocketAddr> {
        self.remote_peers@
    }
}

/// Whether a datagram may go to the address.
pub open spec fn admits(peers: Seq<SocketAddr>, address: SocketAddr) -> bool {
    peers.contains(address) || peers.len() < MAX_DATAGRAM_REMOTE_PEERS
}

/// The peers after a datagram went to the address.
pub open spec fn with_peer(peers: Seq<SocketAddr>, address: SocketAddr) -> Seq<SocketAddr> {
    if peers.contains(address) {
        peers
    } else {
        peers.push(address)
    }
}

impl DirectDatagramAssociation {
    #[verifier::type_invariant]
    spec fn wf(self) -> bool {
        self.remote_peers@.len() <= MAX_DATAGRAM_REMOTE_PEERS && self.remote_peers@.no_duplicates()
    }

    pub fn new() -> (r: DirectDatagramAssociation)
        ensures
            r@ == Seq::<SocketAddr>::empty(),
    {
        DirectDatagramAssociation { remote_peers: Vec::new() }
    }

    pub fn remote_peer_count(&self) -> (r: usize)
        ensures
            r == self@.len(),
            r <= MAX_DATAGRAM_REMOTE_PEERS,
            self@.no_duplicates(),
    {
        proof {
            use_type_invariant(self);
        }
        self.remote_peers.len()
    }

    /// Whether the association has sent to the address.
    pub fn trusts(&self, address: SocketAddr) -> (r: bool)
        ensures
            r == self@.contains(address),
    {
        let mut i: usize = 0;
        while i < self.remote_peers.len()
            invariant
                i <= self@.len(),
                self@ == self.remote_peers@,
                forall|j: int| 0 <= j < i ==> self@[j] != address,
            decreases self@.len() - i,
        {
            if self.remote_peers[i] == address {
                assert(self@[i as int] == address);
                return true;
            }
            i = i + 1;
        }
        false
    }

    /// Whether a datagram may go to the address.
    pub fn check_peer(&self, address: SocketAddr) -> (r: Result<(), Error>)
        ensures
            match r {
                Ok(_) => admits(self@, address),
                Err(e) => !admits(self@, address) && e@ == peer_limit_failure(),
            },
    {
        if !self.trusts(address) && self.remote_peers.len() >= MAX_DATAGRAM_REMOTE_PEERS {
            return Err(
                Error::new(
                    ErrorKind::QuotaExceeded,
                    "datagram association remote peer limit 256 reached",
                ),
            );
        }
        Ok(())
    }

    /// The socket took `sent` of the `length` bytes for the address.
    pub fn sent(&mut self, address: SocketAddr, length: usize, sent: usize) -> (r: Result<
        (),
        Error,
    >)
        requires
            admits(old(self)@, address),
        ensures
            match r {
                Ok(_) => peers_after(old(self)@, address, length as nat, sent as nat) == Ok::<
                    Seq<SocketAddr>,
                    ErrorView,
                >(final(self)@),
                Err(e) => final(self)@ == old(self)@ && peers_after(
                    old(self)@,
                    address,
                    length as nat,
                    sent as nat,
                ) == Err::<Seq<SocketAddr>, ErrorView>(e@),
            },
    {
        proof {
            use_type_invariant(&*self);
        }
        if sent != length {
            return Err(
                Error::new(ErrorKind::WriteZero, "UDP socket reported a partial datagram send"),
            );
        }
        if !self.trusts(address) {
            let mut peers: Vec<SocketAddr> = Vec::new();
            std::mem::swap(&mut peers, &mut self.remote_peers);
            peers.push(address);
            self.remote_peers = peers;
        }
        Ok(())
    }
}

/// What a socket said of a datagram that was handed to it.
pub open spec fn attempt(result: Result<usize, Error>) -> Result<nat, ErrorView> {
    match result {
        Ok(n) => Ok(n as nat),
        Err(e) => Err(e@),
    }
}

/// The peers after the socket took so many bytes of a datagram: only a whole one counts.
pub open spec fn peers_after(
    peers: Seq<SocketAddr>,
    address: SocketAddr,
    length: nat,
    sent: nat,
) -> Result<Seq<SocketAddr>, ErrorView> {
    if sent == length {
        Ok(with_peer(peers, address))
    } else {
        Err(partial_send_failure())
    }
}

/// Sending one datagram to the addresses of its target, until one takes it.
#[derive(Debug)]
pub struct DatagramSend {
    addresses: Vec<SocketAddr>,
    next: usize,
    last_error: Option<Error>,
}

#[verifier::ext_equal]
pub struct SendView {
    pub addresses: Seq<SocketAddr>,
    pub last_error: Option<ErrorView>,
}

impl View for DatagramSend {
    type V = SendView;

    closed spec fn view(&self) -> SendView {
        SendView {
            addresses: self.addresses@.skip(self.next as int),
            last_error: match self.last_error {
                Some(e) => Some(e@),
                None => None,
            },
        }
    }
}

/// What to do next with a datagram.
#[derive(Debug)]
pub enum SendStep {
    Transmit(SocketAddr),
    Fail(Error),
}

#[verifier::ext_equal]
pub enum SendStepView {
    Transmit(SocketAddr),
    Fail(ErrorView),
}

impl View for SendStep {
    type V = SendStepView;

    open spec fn view(&self) -> SendStepView {
        match self {
            SendStep::Transmit(a) => SendStepView::Transmit(*a),
            SendStep::Fail(e) => SendStepView::Fail(e@),
        }
    }
}

impl SendView {
    /// What is left to try, the peers, and whether the datagram is sent, after one attempt.
    pub open spec fn attempted(
        self,
        peers: Seq<SocketAddr>,
        address: SocketAddr,
        length: nat,
        result: Result<nat, ErrorView>,
    ) -> (SendView, Seq<SocketAddr>, bool) {
        match result {
            Ok(n) => match peers_after(peers, address, length, n) {
                Ok(after) => (self, after, true),
                Err(e) => (SendView { last_error: Some(e), ..self }, peers, false),
            },
            Err(e) => (SendView { last_error: Some(e), ..self }, peers, false),
        }
    }

    /// The step to the first address that is admitted.
    pub open spec fn next(self, peers: Seq<SocketAddr>) -> (SendView, SendStepView)
        decreases self.addresses.len(),
    {
        if self.addresses.len() == 0 {
            (
                self,
                SendStepView::Fail(
                    match self.last_error {
                        Some(e) => e,
                        None => no_address_failure(),
                    },
                ),
            )
        } else {
            let rest = self.addresses.drop_first();
            if admits(peers, self.addresses[0]) {
                (
                    SendView { addresses: rest, ..self },
                    SendStepView::Transmit(self.addresses[0]),
                )
            } else {
                (SendView { addresses: rest, last_error: Some(peer_limit_failure()) }).next(peers)
            }
        }
    }
}

impl DatagramSend {
    pub closed spec fn wf(self) -> bool {
        self.next <= self.addresses@.len()
    }

    /// Sending to addresses that are known.
    pub fn to_addresses(addresses: Vec<SocketAddr>) -> (r: DatagramSend)
        ensures
            r.wf(),
            r@ == (SendView { addresses: addresses@, last_error: None }),
    {
        let r = DatagramSend { addresses, next: 0, last_error: None };
        assert(r@.addresses == addresses@);
        r
    }

    /// Sending to a target, which is resolved here.
    pub fn start(target: &Target, dns: &mut DnsEngine, now: Instant) -> (r: Result<
        DatagramSend,
        Error,
    >)
        requires
            old(dns).wf(),
        ensures
            final(dns).wf(),
            match r {
                Ok(s) => s.wf() && s@.last_error is None && proxy::resolves_to(
                    target@,
                    old(dns)@,
                    now,
                    final(dns)@,
                    Ok(s@.addresses),
                ),
                Err(e) => proxy::resolves_to(target@, old(dns)@, now, final(dns)@, Err(e@)),
            },
    {
        match proxy::resolve_target(target, dns, now) {
            Ok(addresses) => Ok(DatagramSend::to_addresses(addresses)),
            Err(e) => Err(e),
        }
    }

    pub fn next(&mut self, association: &DirectDatagramAssociation) -> (r: SendStep)
        requires
            old(self).wf(),
        ensures
            final(self).wf(),
            (final(self)@, r@) == old(self)@.next(association@),
            r matches SendStep::Transmit(a) ==> admits(association@, a),
    {
        while self.next < self.addresses.len()
            invariant
                self.wf(),
                self@.next(association@) == old(self)@.next(association@),
            decreases self.addresses@.len() - self.next,
        {
            let ghost before = self@;
            let address = self.addresses[self.next];
            self.next = self.next + 1;
            assert(self@.addresses == before.addresses.drop_first());
            assert(before.addresses[0] == address);
            match association.check_peer(address) {
                Ok(_) => {
                    return SendStep::Transmit(address);
                },
                Err(e) => {
                    self.last_error = Some(e);
                },
            }
        }
        assert(self@.addresses.len() == 0);
        match &self.last_error {
            Some(e) => SendStep::Fail(e.clone()),
            None => SendStep::Fail(
                Error::new(
                    ErrorKind::AddrNotAvailable,
                    "datagram target resolved to no usable address",
                ),
            ),
        }
    }

    /// The datagram went out, or the next address is tried.
    pub fn outcome(
        &mut self,
        association: &mut DirectDatagramAssociation,
        address: SocketAddr,
        length: usize,
        result: Result<usize, Error>,
    ) -> (done: bool)
        requires
            old(self).wf(),
            admits(old(association)@, address),
        ensures
            final(self).wf(),
            (final(self)@, final(association)@, done) == old(self)@.attempted(
                old(association)@,
                address,
                length as nat,
                attempt(result),
            ),
    {
        match result {
            Ok(sent) => match association.sent(address, length, sent) {
                Ok(_) => true,
                Err(e) => {
                    self.last_error = Some(e);
                    false
                },
            },
            Err(e) => {
                self.last_error = Some(e);
                false
            },
        }
    }
}

/// What a read of a datagram socket gave.
#[derive(Debug)]
pub enum ReceiveEvent {
    Datagram { source: SocketAddr, length: usize },
    Failed(Error),
}

#[verifier::ext_equal]
pub enum ReceiveEventView {
    Datagram { source: SocketAddr, length: nat },
    Failed(ErrorView),
}

impl View for ReceiveEvent {
    type V = ReceiveEventView;

    open spec fn view(&self) -> ReceiveEventView {
        match self {
            ReceiveEvent::Datagram { source, length } => ReceiveEventView::Datagram {
                source: *source,
                length: *length as nat,
            },
            ReceiveEvent::Failed(e) => ReceiveEventView::Failed(e@),
        }
    }
}

/// What to do next to receive a datagram.
#[derive(Debug)]
pub enum ReceiveStep {
    /// Read from the IPv4 socket or from the IPv6 socket.
    Read { ipv6: bool },
    Return(Option<ReceivedDatagram>),
    Fail(Error),
}

#[verifier::ext_equal]
pub enum ReceiveStepView {
    Read { ipv6: bool },
    Return(Option<ReceivedView>),
    Fail(ErrorView),
}

impl View for ReceiveStep {
    type V = ReceiveStepView;

    open spec fn view(&self) -> ReceiveStepView {
        match self {
            ReceiveStep::Read { ipv6 } => ReceiveStepView::Read { ipv6: *ipv6 },
            ReceiveStep::Return(Some(d)) => ReceiveStepView::Return(Some(d@)),
            ReceiveStep::Return(None) => ReceiveStepView::Return(None),
            ReceiveStep::Fail(e) => ReceiveStepView::Fail(e@),
        }
    }
}

/// One receive: the IPv4 socket first, then the IPv6 socket where there is one.
#[derive(Clone, Copy, Debug, PartialEq, Eq, Structural)]
pub struct ReceiveTurn {
    pub left: usize,
    pub ipv6: bool,
    pub has_ipv6: bool,
}

impl ReceiveTurn {
    /// The socket has nothing more for this receive.
    pub open spec fn socket_done(self) -> (ReceiveTurn, ReceiveStepView) {
        if !self.ipv6 && self.has_ipv6 {
            (
                ReceiveTurn { left: MAX_UNTRUSTED_DRAIN_PER_RECEIVE, ipv6: true, has_ipv6: true },
                ReceiveStepView::Read { ipv6: true },
            )
        } else {
            (self, ReceiveStepView::Return(None))
        }
    }

    /// The read counts as one of the tries on the socket.
    pub open spec fn again(self) -> (ReceiveTurn, ReceiveStepView) {
        if self.left > 1 {
            (
                ReceiveTurn { left: (self.left - 1) as usize, ..self },
                ReceiveStepView::Read { ipv6: self.ipv6 },
            )
        } else {
            self.socket_done()
        }
    }

    pub open spec fn next(self, peers: Seq<SocketAddr>, event: ReceiveEventView) -> (
        ReceiveTurn,
        ReceiveStepView,
    ) {
        match event {
            ReceiveEventView::Datagram { source, length } => if !peers.contains(source) {
                self.again()
            } else {
                (
                    self,
                    match proxy::target(HostView::Ip(source.ip), source.port) {
                        Ok(t) => ReceiveStepView::Return(
                            Some(ReceivedView { source: t, length }),
                        ),
                        Err(e) => ReceiveStepView::Fail(e),
                    },
                )
            },
            ReceiveEventView::Failed(e) => if e.kind == ErrorKind::WouldBlock {
                self.socket_done()
            } else if e.kind == ErrorKind::Interrupted {
                self.again()
            } else {
                (self, ReceiveStepView::Fail(e))
            },
        }
    }

    /// Starts a receive into a buffer; the first read is from the IPv4 socket.
    pub fn start(buffer_len: usize, has_ipv6: bool) -> (r: Result<ReceiveTurn, Error>)
        ensures
            match r {
                Ok(t) => buffer_len > 0 && t == (ReceiveTurn {
                    left: MAX_UNTRUSTED_DRAIN_PER_RECEIVE,
                    ipv6: false,
                    has_ipv6,
                }),
                Err(e) => buffer_len == 0 && e@ == error::failure(
                    ErrorKind::InvalidInput,
                    "datagram receive buffer must not be empty"@,
                ),
            },
    {
        if buffer_len == 0 {
            return Err(
                Error::new(
                    ErrorKind::InvalidInput,
                    "datagram receive buffer must not be empty",
                ),
            );
        }
        Ok(ReceiveTurn { left: MAX_UNTRUSTED_DRAIN_PER_RECEIVE, ipv6: false, has_ipv6 })
    }

    fn leave_socket(&mut self) -> (r: ReceiveStep)
        ensures
            (*final(self), r@) == old(self).socket_done(),
    {
        if !self.ipv6 && self.has_ipv6 {
            self.left = MAX_UNTRUSTED_DRAIN_PER_RECEIVE;
            self.ipv6 = true;
            ReceiveStep::Read { ipv6: true }
        } else {
            ReceiveStep::Return(None)
        }
    }

    fn retry(&mut self) -> (r: ReceiveStep)
        ensures
            (*final(self), r@) == old(self).again(),
    {
        if self.left > 1 {
            self.left = self.left - 1;
            ReceiveStep::Read { ipv6: self.ipv6 }
        } else {
            self.leave_socket()
        }
    }

    /// What follows a read.
    pub fn step(&mut self, association: &DirectDatagramAssociation, event: ReceiveEvent) -> (r:
        ReceiveStep)
        ensures
            (*final(self), r@) == old(self).next(association@, event@),
    {
        match event {
            ReceiveEvent::Datagram { source, length } => {
                if !association.trusts(source) {
                    return self.retry();
                }
                match Target::new(DestinationHost::Ip(source.ip), source.port) {
                    Ok(target) => ReceiveStep::Return(
                        Some(ReceivedDatagram { source: target, length }),
                    ),
                    Err(e) => ReceiveStep::Fail(e),
                }
            },
            ReceiveEvent::Failed(e) => {
                if e.kind == ErrorKind::WouldBlock {
                    self.leave_socket()
                } else if e.kind == ErrorKind::Interrupted {
                    self.retry()
                } else {
                    ReceiveStep::Fail(e)
                }
            },
        }
    }
}

/// A datagram that is handed out came from a peer that the association has sent
/// to, and bears that peer's address.
pub proof fn law_unsolicited_datagrams_are_not_exposed(
    turn: ReceiveTurn,
    peers: Seq<SocketAddr>,
    event: ReceiveEventView,
    received: ReceivedView,
)
    requires
        turn.next(peers, event).1 == ReceiveStepView::Return(Some(received)),
    ensures
        event matches ReceiveEventView::Datagram { source, length } && peers.contains(source)
            && received.source.host == HostView::Ip(source.ip) && received.source.port
            == source.port && received.length == length,
{
}

/// A receive ends after at most 32 reads on each socket: every further read uses
/// one of them up.
pub proof fn law_receive_is_bounded(
    turn: ReceiveTurn,
    peers: Seq<SocketAddr>,
    event: ReceiveEventView,
)
    requires
        turn.left <= MAX_UNTRUSTED_DRAIN_PER_RECEIVE,
        turn.next(peers, event).1 is Read,
    ensures
        ({
            let after = turn.next(peers, event).0;
            &&& after.left <= MAX_UNTRUSTED_DRAIN_PER_RECEIVE
            &&& (after.ipv6 == turn.ipv6 && after.left < turn.left) || (after.ipv6 && !turn.ipv6)
        }),
{
}

/// Whether two endpoints are one.
pub fn same_endpoint(a: &Endpoint, b: &Endpoint) -> (r: bool)
    ensures
        r == (a@ == b@),
{
    match a {
        Endpoint::Direct => match b {
            Endpoint::Direct => true,
            Endpoint::Proxy(_) => false,
        },
        Endpoint::Proxy(x) => match b {
            Endpoint::Direct => false,
            Endpoint::Proxy(y) => text::same(x.as_str(), y.as_str()),
        },
    }
}

/// The first of so many new tokens, and the next after them, while there are that many left.
pub open spec fn allocation(next: usize, count: usize) -> Result<(usize, usize), ErrorView> {
    if next + count <= usize::MAX {
        Ok((next, (next + count) as usize))
    } else {
        Err(error::failure(ErrorKind::Other, "datagram readiness tokens are exhausted"@))
    }
}

/// Readiness tokens, each handed out once.
#[derive(Debug)]
pub struct DatagramTokenAllocator {
    next: usize,
}

impl View for DatagramTokenAllocator {
    type V = usize;

    closed spec fn view(&self) -> usize {
        self.next
    }
}

impl DatagramTokenAllocator {
    pub fn new(first: usize) -> (r: DatagramTokenAllocator)
        ensures
            r@ == first,
    {
        DatagramTokenAllocator { next: first }
    }

    /// The first of `count` tokens in a row that were not handed out before.
    pub fn allocate(&mut self, count: usize) -> (r: Result<usize, Error>)
        ensures
            match r {
                Ok(first) => allocation(old(self)@, count) == Ok::<(usize, usize), ErrorView>(
                    (first, final(self)@),
                ),
                Err(e) => final(self)@ == old(self)@ && allocation(old(self)@, count) == Err::<
                    (usize, usize),
                    ErrorView,
                >(e@),
            },
    {
        if count > usize::MAX - self.next {
            return Err(Error::new(ErrorKind::Other, "datagram readiness tokens are exhausted"));
        }
        let first = self.next;
        self.next = self.next + count;
        Ok(first)
    }
}

/// An open path to one endpoint, with the readiness tokens that it owns.
#[derive(Debug)]
pub struct RouteEntry<E> {
    pub endpoint: Endpoint,
    pub first_token: usize,
    pub token_count: usize,
    pub execution: E,
}

#[verifier::ext_equal]
pub struct RouteView<E> {
    pub endpoint: EndpointView,
    pub first_token: nat,
    pub token_count: nat,
    pub execution: E,
}

impl<E> View for RouteEntry<E> {
    type V = RouteView<E>;

    open spec fn view(&self) -> RouteView<E> {
        RouteView {
            endpoint: self.endpoint@,
            first_token: self.first_token as nat,
            token_count: self.token_count as nat,
            execution: self.execution,
        }
    }
}

impl<E> RouteView<E> {
    pub open spec fn owns(self, token: nat) -> bool {
        self.first_token <= token < self.first_token + self.token_count
    }
}

/// The datagram paths that one inbound association has opened, by endpoint.
#[derive(Debug)]
pub struct DatagramRouteSet<E> {
    routes: Vec<RouteEntry<E>>,
    token_end: usize,
}

impl<E> View for DatagramRouteSet<E> {
    type V = Seq<RouteView<E>>;

    closed spec fn view(&self) -> Seq<RouteView<E>> {
        self.routes@.map_values(|r: RouteEntry<E>| r@)
    }
}

/// What to do with a datagram for an endpoint.
#[derive(Debug)]
pub enum RouteStep {
    /// The path with this number is open.
    Reuse(usize),
    /// A path is to be opened and put in.
    Open,
    Refuse(Error),
}

pub open spec fn has_route<E>(s: Seq<RouteView<E>>, endpoint: EndpointView) -> bool {
    exists|i: int| 0 <= i < s.len() && (#[trigger] s[i]).endpoint == endpoint
}

pub open spec fn route_limit_failure() -> ErrorView {
    error::failure(ErrorKind::QuotaExceeded, "datagram route limit 32 reached"@)
}

/// The tokens of the routes, in order.
pub open spec fn tokens_of<E>(s: Seq<RouteView<E>>) -> Seq<usize>
    decreases s.len(),
{
    if s.len() == 0 {
        Seq::empty()
    } else {
        tokens_of(s.drop_last()) + Seq::new(
            s.last().token_count,
            |k: int| (s.last().first_token + k) as usize,
        )
    }
}

/// No endpoint twice, no token twice, and not more routes than allowed.
pub open spec fn routes_wf<E>(s: Seq<RouteView<E>>) -> bool {
    &&& s.len() <= MAX_DATAGRAM_ROUTES
    &&& forall|i: int, j: int|
        #![trigger s[i], s[j]]
        0 <= i < j < s.len() ==> s[i].endpoint != s[j].endpoint && s[i].first_token
            + s[i].token_count <= s[j].first_token
    &&& forall|i: int|
        0 <= i < s.len() ==> (#[trigger] s[i]).first_token + s[i].token_count <= usize::MAX
}

impl<E> DatagramRouteSet<E> {
    pub closed spec fn wf(self) -> bool {
        &&& routes_wf(self@)
        &&& forall|i: int|
            0 <= i < self@.len() ==> (#[trigger] self@[i]).first_token + self@[i].token_count
                <= self.token_end
    }

    /// Tokens from here on belong to no route.
    pub closed spec fn spec_token_end(self) -> usize {
        self.token_end
    }

    pub proof fn lemma_wf(self)
        requires
            self.wf(),
        ensures
            routes_wf(self@),
            forall|i: int|
                0 <= i < self@.len() ==> (#[trigger] self@[i]).first_token + self@[i].token_count
                    <= self.spec_token_end(),
    {
    }

    pub fn new() -> (r: DatagramRouteSet<E>)
        ensures
            r.wf(),
            r@ == Seq::<RouteView<E>>::empty(),
            r.spec_token_end() == 0,
    {
        let r = DatagramRouteSet { routes: Vec::new(), token_end: 0 };
        assert(r@ == Seq::<RouteView<E>>::empty());
        r
    }

    pub fn len(&self) -> (r: usize)
        requires
            self.wf(),
        ensures
            r == self@.len(),
            r <= MAX_DATAGRAM_ROUTES,
    {
        self.routes.len()
    }

    fn find(&self, endpoint: &Endpoint) -> (r: Option<usize>)
        ensures
            match r {
                Some(i) => i < self@.len() && self@[i as int].endpoint == endpoint@,
                None => !has_route(self@, endpoint@),
            },
    {
        let mut i: usize = 0;
        while i < self.routes.len()
            invariant
                i <= self@.len(),
                self.routes@.len() == self@.len(),
                forall|j: int| 0 <= j < i ==> (#[trigger] self@[j]).endpoint != endpoint@,
            decreases self@.len() - i,
        {
            assert(self@[i as int] == self.routes@[i as int]@);
            if same_endpoint(&self.routes[i].endpoint, endpoint) {
                return Some(i);
            }
            i = i + 1;
        }
        None
    }

    /// An endpoint's path is opened once and then used again; a further endpoint
    /// is refused when all routes are taken.
    pub fn route(&self, endpoint: &Endpoint) -> (r: RouteStep)
        requires
            self.wf(),
        ensures
            match r {
                RouteStep::Reuse(i) => i < self@.len() && self@[i as int].endpoint == endpoint@,
                RouteStep::Open => !has_route(self@, endpoint@) && self@.len()
                    < MAX_DATAGRAM_ROUTES,
                RouteStep::Refuse(e) => !has_route(self@, endpoint@) && self@.len()
                    == MAX_DATAGRAM_ROUTES && e@ == route_limit_failure(),
            },
    {
        match self.find(endpoint) {
            Some(i) => RouteStep::Reuse(i),
            None => if self.routes.len() >= MAX_DATAGRAM_ROUTES {
                RouteStep::Refuse(
                    Error::new(ErrorKind::QuotaExceeded, "datagram route limit 32 reached"),
                )
            } else {
                RouteStep::Open
            },
        }
    }

    /// Puts in a path that was opened for an endpoint and registered under tokens
    /// that no route had before.
    pub fn insert(
        &mut self,
        endpoint: Endpoint,
        execution: E,
        first_token: usize,
        token_count: usize,
    ) -> (r: Result<usize, Error>)
        requires
            old(self).wf(),
            !has_route(old(self)@, endpoint@),
            old(self)@.len() < MAX_DATAGRAM_ROUTES,
        ensures
            final(self).wf(),
            match r {
                Ok(i) => {
                    &&& old(self).spec_token_end() <= first_token
                    &&& first_token + token_count <= usize::MAX
                    &&& i == old(self)@.len()
                    &&& final(self)@ == old(self)@.push(
                        RouteView {
                            endpoint: endpoint@,
                            first_token: first_token as nat,
                            token_count: token_count as nat,
                            execution,
                        },
                    )
                    &&& final(self).spec_token_end() == first_token + token_count
                },
                Err(e) => {
                    &&& first_token < old(self).spec_token_end() || first_token + token_count
                        > usize::MAX
                    &&& *final(self) == *old(self)
                    &&& e@ == error::failure(
                        ErrorKind::Other,
                        "datagram readiness tokens overlap"@,
                    )
                },
            },
    {
        if first_token < self.token_end || token_count > usize::MAX - first_token {
            return Err(Error::new(ErrorKind::Other, "datagram readiness tokens overlap"));
        }
        let ghost start = self@;
        let ghost entry = RouteView {
            endpoint: endpoint@,
            first_token: first_token as nat,
            token_count: token_count as nat,
            execution,
        };
        let index = self.routes.len();
        self.routes.push(RouteEntry { endpoint, first_token, token_count, execution });
        self.token_end = first_token + token_count;
        proof {
            assert(self@ == start.push(entry));
            assert forall|i: int, j: int|
                #![trigger self@[i], self@[j]]
                0 <= i < j < self@.len() implies self@[i].endpoint != self@[j].endpoint
                && self@[i].first_token + self@[i].token_count <= self@[j].first_token by {
                assert(self@[i] == start[i]);
                if j < start.len() {
                    assert(self@[j] == start[j]);
                }
            }
        }
        Ok(index)
    }

    /// The path that owns a token.
    pub fn owner(&self, token: usize) -> (r: Option<usize>)
        ensures
            match r {
                Some(i) => i < self@.len() && self@[i as int].owns(token as nat),
                None => forall|i: int|
                    0 <= i < self@.len() ==> !(#[trigger] self@[i]).owns(token as nat),
            },
    {
        let mut i: usize = 0;
        while i < self.routes.len()
            invariant
                i <= self@.len(),
                self.routes@.len() == self@.len(),
                forall|j: int| 0 <= j < i ==> !(#[trigger] self@[j]).owns(token as nat),
            decreases self@.len() - i,
        {
            assert(self@[i as int] == self.routes@[i as int]@);
            let route = &self.routes[i];
            if route.first_token <= token && token - route.first_token < route.token_count {
                return Some(i);
            }
            i = i + 1;
        }
        None
    }

    pub fn owns_token(&self, token: usize) -> (r: bool)
        ensures
            r == exists|i: int| 0 <= i < self@.len() && (#[trigger] self@[i]).owns(token as nat),
    {
        match self.owner(token) {
            Some(i) => {
                assert(self@[i as int].owns(token as nat));
                true
            },
            None => false,
        }
    }

    /// All tokens of the routes.
    pub fn owned_tokens(&self) -> (r: Vec<usize>)
        requires
            self.wf(),
        ensures
            r@ == tokens_of(self@),
    {
        let mut out: Vec<usize> = Vec::new();
        let mut i: usize = 0;
        assert(self@.take(0).len() == 0);
        while i < self.routes.len()
            invariant
                self.wf(),
                i <= self@.len(),
                self.routes@.len() == self@.len(),
                out@ == tokens_of(self@.take(i as int)),
            decreases self@.len() - i,
        {
            let ghost s = self@[i as int];
            assert(s == self.routes@[i as int]@);
            assert(self@.take(i + 1).drop_last() == self@.take(i as int));
            assert(self@.take(i + 1).last() == s);
            let ghost before = out@;
            let mut k: usize = 0;
            while k < self.routes[i].token_count
                invariant
                    i < self.routes@.len(),
                    s == self.routes@[i as int]@,
                    s.first_token + s.token_count <= usize::MAX,
                    k <= s.token_count,
                    out@ == before + Seq::new(k as nat, |k: int| (s.first_token + k) as usize),
                decreases s.token_count - k,
            {
                out.push(self.routes[i].first_token + k);
                k = k + 1;
                assert(Seq::new(k as nat, |k: int| (s.first_token + k) as usize) == Seq::new(
                    (k - 1) as nat,
                    |k: int| (s.first_token + k) as usize,
                ).push((s.first_token + k - 1) as usize));
            }
            i = i + 1;
        }
        assert(self@.take(i as int) == self@);
        out
    }

    /// An open path, to be used.
    pub fn execution_mut(&mut self, i: usize) -> (r: &mut E)
        requires
            old(self).wf(),
            i < old(self)@.len(),
        ensures
            *r == old(self)@[i as int].execution,
            final(self).spec_token_end() == old(self).spec_token_end(),
            final(self)@ == old(self)@.update(
                i as int,
                RouteView { execution: *final(r), ..old(self)@[i as int] },
            ),
            final(self).wf(),
    {
        proof {
            let s = self@;
            let end = self.token_end;
            assert forall|v: RouteView<E>|
                #![trigger s.update(i as int, v)]
                v.endpoint == s[i as int].endpoint && v.first_token == s[i as int].first_token
                    && v.token_count == s[i as int].token_count implies ({
                let t = s.update(i as int, v);
                &&& routes_wf(t)
                &&& forall|k: int|
                    0 <= k < t.len() ==> (#[trigger] t[k]).first_token + t[k].token_count <= end
            }) by {
                let t = s.update(i as int, v);
                assert forall|a: int, b: int|
                    #![trigger t[a], t[b]]
                    0 <= a < b < t.len() implies t[a].endpoint != t[b].endpoint
                    && t[a].first_token + t[a].token_count <= t[b].first_token by {
                    assert(s[a].endpoint != s[b].endpoint);
                }
                assert forall|k: int| 0 <= k < t.len() implies (#[trigger] t[k]).first_token
                    + t[k].token_count <= end by {
                    assert(s[k].first_token + s[k].token_count <= end);
                }
            }
        }
        &mut self.routes[i].execution
    }
}

/// No readiness token belongs to two routes of one set.
pub proof fn law_a_token_has_one_owner<E>(s: Seq<RouteView<E>>, i: int, j: int, token: nat)
    requires
        routes_wf(s),
        0 <= i < s.len(),
        0 <= j < s.len(),
        s[i].owns(token),
        s[j].owns(token),
    ensures
        i == j,
{
}

/// An endpoint has one route at most, so its path is opened once.
pub proof fn law_an_endpoint_has_one_route<E>(s: Seq<RouteView<E>>, i: int, j: int)
    requires
        routes_wf(s),
        0 <= i < s.len(),
        0 <= j < s.len(),
        s[i].endpoint == s[j].endpoint,
    ensures
        i == j,
{
}

/// The peers of an association are those that a whole datagram was sent to, each once and no
/// more than 256 of them.
pub proof fn law_peers_are_those_sent_to(
    peers: Seq<SocketAddr>,
    address: SocketAddr,
    other: SocketAddr,
    length: nat,
    sent: nat,
)
    requires
        peers.no_duplicates(),
        peers.len() <= 256,
    ensures
        admits(peers, address) <==> peers.contains(address) || peers.len() < 256,
        peers_after(peers, address, length, sent) is Ok <==> sent == length,
        peers_after(peers, address, length, sent) matches Err(e) ==> e.kind == ErrorKind::WriteZero,
        peers_after(peers, address, length, sent) matches Ok(after) ==> {
            &&& after.contains(other) <==> peers.contains(other) || other == address
            &&& after.no_duplicates()
            &&& admits(peers, address) ==> after.len() <= 256
        },
{
    if !peers.contains(address) {
        let after = peers.push(address);
        assert(after[peers.len() as int] == address);
        assert forall|a: SocketAddr| peers.contains(a) implies after.contains(a) by {
            let i = choose|i: int| 0 <= i < peers.len() && peers[i] == a;
            assert(after[i] == a);
        }
    }
}

/// A send is tried with the first address that the association may speak to, in the order of
/// the addresses, and fails only when there is none: with the last error that occurred, with
/// the peer limit when that kept addresses out, and with an unavailable address when there
/// was none at all.
#[verifier::rlimit(30)]
pub proof fn law_send_tries_every_usable_address(send: SendView, peers: Seq<SocketAddr>)
    ensures
        ({
            let (after, step) = send.next(peers);
            &&& step matches SendStepView::Transmit(a) ==> exists|k: int|
                #![trigger send.addresses[k]]
                {
                    &&& 0 <= k < send.addresses.len()
                    &&& send.addresses[k] == a
                    &&& admits(peers, a)
                    &&& forall|i: int|
                        0 <= i < k ==> !admits(peers, #[trigger] send.addresses[i])
                    &&& after.addresses == send.addresses.skip(k + 1)
                }
            &&& step is Fail <==> forall|i: int|
                0 <= i < send.addresses.len() ==> !admits(peers, #[trigger] send.addresses[i])
            &&& step matches SendStepView::Fail(e) ==> {
                &&& send.addresses.len() > 0 ==> e.kind == ErrorKind::QuotaExceeded
                &&& send.addresses.len() == 0 ==> match send.last_error {
                    Some(last) => e == last,
                    None => e.kind == ErrorKind::AddrNotAvailable,
                }
            }
        }),
    decreases send.addresses.len(),
{
    if send.addresses.len() > 0 {
        let rest = send.addresses.drop_first();
        if admits(peers, send.addresses[0]) {
            assert(rest =~= send.addresses.skip(0int + 1));
        } else {
            let less = SendView { addresses: rest, last_error: Some(peer_limit_failure()) };
            law_send_tries_every_usable_address(less, peers);
            let (after, step) = less.next(peers);
            assert(send.next(peers) == (after, step));
            assert forall|i: int| 0 < i < send.addresses.len() implies send.addresses[i]
                == #[trigger] rest[i - 1] by {}
            if let SendStepView::Transmit(a) = step {
                let k = choose|k: int|
                    #![trigger rest[k]]
                    {
                        &&& 0 <= k < rest.len()
                        &&& rest[k] == a
                        &&& admits(peers, a)
                        &&& forall|i: int| 0 <= i < k ==> !admits(peers, #[trigger] rest[i])
                        &&& after.addresses == rest.skip(k + 1)
                    };
                assert(send.addresses[k + 1] == a);
                assert(rest.skip(k + 1) =~= send.addresses.skip(k + 1 + 1));
                assert forall|i: int| 0 <= i < k + 1 implies !admits(
                    peers,
                    #[trigger] send.addresses[i],
                ) by {
                    if i > 0 {
                        assert(rest[i - 1] == send.addresses[i]);
                    }
                }
                assert(!(step is Fail));
            } else {
                assert forall|i: int| 0 <= i < send.addresses.len() implies !admits(
                    peers,
                    #[trigger] send.addresses[i],
                ) by {
                    if i > 0 {
                        assert(rest[i - 1] == send.addresses[i]);
                    }
                }
            }
        }
    }
}

/// A datagram is sent when the socket took all of it. Otherwise the peers stay as they are,
/// the addresses that are left are still to be tried, and the error is kept.
pub proof fn law_send_ends_when_all_was_taken(
    send: SendView,
    peers: Seq<SocketAddr>,
    address: SocketAddr,
    length: nat,
    result: Result<nat, ErrorView>,
)
    ensures
        ({
            let (after, trusted, done) = send.attempted(peers, address, length, result);
            &&& done <==> result == Ok::<nat, ErrorView>(length)
            &&& after.addresses == send.addresses
            &&& done ==> after == send && trusted.contains(address)
            &&& !done ==> trusted == peers && after.last_error is Some
            &&& result matches Err(e) ==> after.last_error == Some(e)
            &&& !done && result is Ok ==> after.last_error->0.kind == ErrorKind::WriteZero
        }),
{
    if !peers.contains(address) {
        assert(peers.push(address)[peers.len() as int] == address);
    }
}

/// A datagram from a peer is returned, one from anybody else is skipped, and a socket that has
/// no more to give hands over to the next: the IPv4 socket to the IPv6 socket where there is
/// one, and the last of them ends the turn with nothing received. Other errors end it.
pub proof fn law_datagrams_of_peers_are_received(
    turn: ReceiveTurn,
    peers: Seq<SocketAddr>,
    event: ReceiveEventView,
)
    ensures
        ({
            let (after, step) = turn.next(peers, event);
            let other = !turn.ipv6 && turn.has_ipv6;
            &&& event matches ReceiveEventView::Datagram { source, length } ==> {
                &&& peers.contains(source) && source.port > 0 ==> (step
                    matches ReceiveStepView::Return(Some(d)) && d.source.host == HostView::Ip(
                    source.ip,
                ) && d.source.port == source.port && d.length == length)
                &&& peers.contains(source) && source.port == 0 ==> step is Fail
                &&& !peers.contains(source) && turn.left > 1 ==> step == (ReceiveStepView::Read {
                    ipv6: turn.ipv6,
                }) && after.left == turn.left - 1
                &&& !peers.contains(source) && turn.left <= 1 ==> step == if other {
                    ReceiveStepView::Read { ipv6: true }
                } else {
                    ReceiveStepView::Return(None)
                }
            }
            &&& event matches ReceiveEventView::Failed(e) ==> {
                &&& e.kind == ErrorKind::WouldBlock ==> step == if other {
                    ReceiveStepView::Read { ipv6: true }
                } else {
                    ReceiveStepView::Return(None)
                }
                &&& e.kind == ErrorKind::Interrupted && turn.left > 1 ==> step == (
                ReceiveStepView::Read { ipv6: turn.ipv6 })
                &&& e.kind != ErrorKind::WouldBlock && e.kind != ErrorKind::Interrupted ==> step
                    == ReceiveStepView::Fail(e)
            }
            &&& step matches ReceiveStepView::Read { ipv6 } ==> after.ipv6 == ipv6
            &&& after.ipv6 != turn.ipv6 ==> after.left == 32
            &&& after.has_ipv6 == turn.has_ipv6
        }),
{
}

/// A turn begins with the IPv4 socket and allows 32 reads of it; it needs room to read into.
pub proof fn law_receive_begins_with_ipv4(
    buffer_len: usize,
    has_ipv6: bool,
    r: Result<ReceiveTurn, Error>,
)
    requires
        call_ensures(ReceiveTurn::start, (buffer_len, has_ipv6), r),
    ensures
        r is Ok <==> buffer_len > 0,
        r matches Ok(t) ==> t.left == 32 && !t.ipv6 && t.has_ipv6 == has_ipv6,
        r matches Err(e) ==> e@.kind == ErrorKind::InvalidInput,
{
}

/// New tokens are not among those given out before, and there are as many as were asked for.
pub proof fn law_new_tokens_are_fresh(next: usize, count: usize)
    ensures
        allocation(next, count) is Ok <==> next + count <= usize::MAX,
        allocation(next, count) matches Ok((first, after)) ==> first >= next && after - first
            == count,
{
}

/// An open path to an endpoint is used again; one is opened while there are fewer than 32, and
/// refused when there are that many.
pub proof fn law_open_paths_are_used_again<E>(
    routes: &DatagramRouteSet<E>,
    endpoint: &Endpoint,
    r: RouteStep,
)
    requires
        routes.wf(),
        call_ensures(DatagramRouteSet::<E>::route, (routes, endpoint), r),
    ensures
        r is Reuse <==> exists|i: int|
            0 <= i < routes@.len() && (#[trigger] routes@[i]).endpoint == endpoint@,
        r matches RouteStep::Reuse(i) ==> routes@[i as int].endpoint == endpoint@,
        !(r is Reuse) ==> (r is Open <==> routes@.len() < 32),
        r matches RouteStep::Refuse(e) ==> e@.kind == ErrorKind::QuotaExceeded,
{
    if let RouteStep::Reuse(i) = r {
        assert(routes@[i as int].endpoint == endpoint@);
    }
}

/// The tokens of the paths are those that some path owns.
#[verifier::rlimit(30)]
pub proof fn law_tokens_are_those_owned<E>(s: Seq<RouteView<E>>, token: usize)
    requires
        routes_wf(s),
    ensures
        tokens_of(s).contains(token) <==> exists|i: int|
            0 <= i < s.len() && (#[trigger] s[i]).first_token <= token < s[i].first_token
                + s[i].token_count,
    decreases s.len(),
{
    if s.len() > 0 {
        let front = s.drop_last();
        let last = s.last();
        assert(routes_wf(front)) by {
            assert forall|i: int, j: int|
                #![trigger front[i], front[j]]
                0 <= i < j < front.len() implies front[i].endpoint != front[j].endpoint
                && front[i].first_token + front[i].token_count <= front[j].first_token by {
                assert(front[i] == s[i] && front[j] == s[j]);
            }
            assert forall|i: int| 0 <= i < front.len() implies (#[trigger] front[i]).first_token
                + front[i].token_count <= usize::MAX by {
                assert(front[i] == s[i]);
            }
        }
        law_tokens_are_those_owned(front, token);
        let own = Seq::new(last.token_count, |k: int| (last.first_token + k) as usize);
        assert(last == s[s.len() - 1]);
        assert(tokens_of(s) == tokens_of(front) + own);
        if tokens_of(s).contains(token) {
            let i = choose|i: int| 0 <= i < tokens_of(s).len() && tokens_of(s)[i] == token;
            if i < tokens_of(front).len() {
                assert(tokens_of(front)[i] == token);
                let k = choose|k: int|
                    0 <= k < front.len() && (#[trigger] front[k]).first_token <= token
                        < front[k].first_token + front[k].token_count;
                assert(s[k] == front[k]);
            } else {
                assert(own[i - tokens_of(front).len()] == token);
            }
        }
        if exists|i: int|
            0 <= i < s.len() && (#[trigger] s[i]).first_token <= token < s[i].first_token
                + s[i].token_count {
            let i = choose|i: int|
                0 <= i < s.len() && (#[trigger] s[i]).first_token <= token < s[i].first_token
                    + s[i].token_count;
            if i < front.len() {
                assert(front[i] == s[i]);
                assert(tokens_of(front).contains(token));
                let k = choose|k: int|
                    0 <= k < tokens_of(front).len() && tokens_of(front)[k] == token;
                assert(tokens_of(s)[k] == token);
            } else {
                let k = token - last.first_token;
                assert(own[k] == token);
                assert(tokens_of(s)[tokens_of(front).len() + k] == token);
            }
        }
    }
}

} // verus!
