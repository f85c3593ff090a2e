//! Transparently intercepted flows: their targets, the clients of the UDP
//! listener, and the sockets that its replies leave from.

use crate::datagram;
use crate::datagram::{DatagramRouteSet, RouteStep, RouteView};
use crate::dispatch;
use crate::error;
use crate::error::{Error, ErrorKind, ErrorView};
use crate::flow::{DestinationHost, DestinationView, FlowId, HostView, TransportProtocol};
use crate::idle;
use crate::idle::{IdleEntry, IdleTable};
use crate::net::SocketAddr;
use crate::plan::{Endpoint, EndpointView, ExecutionView, RejectReason};
use crate::policy::EngineView;
use crate::proxy;
use crate::proxy::Target;
use crate::runtime::Runtime;
use crate::time::{Duration, Instant};
use std::collections::HashMap;
use vstd::prelude::*;
use vstd::string::*;

pub mod relay;

verus! {

pub const MAX_CLIENTS: usize = 512;

pub const MAX_REPLY_SOCKETS: usize = 256;

pub const CLIENT_IDLE_TIMEOUT_SECS: u64 = 120;

pub const REPLY_SOCKET_IDLE_TIMEOUT_SECS: u64 = 120;

pub open spec fn idle_limit() -> Duration {
    Duration::spec_from_secs(120)
}

/// The target of an intercepted stream: the address that it was accepted on.
pub fn target_from_local(original: SocketAddr) -> (r: Result<Target, Error>)
    ensures
        match r {
            Ok(t) => proxy::target(HostView::Ip(original.ip), original.port) == Ok::<
                DestinationView,
                ErrorView,
            >(t@),
            Err(e) => proxy::target(HostView::Ip(original.ip), original.port) == Err::<
                DestinationView,
                ErrorView,
            >(e@),
        },
{
    Target::new(DestinationHost::Ip(original.ip), original.port)
}

pub open spec fn reason_text(reason: RejectReason) -> Seq<char> {
    match reason {
        RejectReason::Policy => "Policy"@,
        RejectReason::Security => "Security"@,
        RejectReason::Unsupported => "Unsupported"@,
    }
}

/// What an intercepted stream ends with that the policy rejects.
pub fn rejection(reason: RejectReason) -> (r: Error)
    ensures
        r@ == error::failure(
            ErrorKind::PermissionDenied,
            "transparent TCP flow rejected by policy: "@ + reason_text(reason),
        ),
{
    let name = match reason {
        RejectReason::Policy => "Policy",
        RejectReason::Security => "Security",
        RejectReason::Unsupported => "Unsupported",
    };
    let r = error::error3(
        ErrorKind::PermissionDenied,
        "transparent TCP flow rejected by policy: ",
        name,
        "",
    );
    proof {
        reveal_strlit("");
        assert(r@.message =~= "transparent TCP flow rejected by policy: "@ + reason_text(reason));
    }
    r
}

/// The endpoint and the target of an intercepted stream that was accepted on an
/// address.
pub open spec fn stream_of(policy: EngineView, original: SocketAddr, id: FlowId) -> Result<
    (EndpointView, DestinationView),
    ErrorView,
> {
    match proxy::target(HostView::Ip(original.ip), original.port) {
        Err(e) => Err(e),
        Ok(t) => match dispatch::planned(policy, t, TransportProtocol::Tcp, id) {
            ExecutionView::Route { endpoint } => Ok((endpoint, t)),
            ExecutionView::Reject { reason } => Err(
                error::failure(
                    ErrorKind::PermissionDenied,
                    "transparent TCP flow rejected by policy: "@ + reason_text(reason),
                ),
            ),
        },
    }
}

pub fn intercepted_stream(runtime: &Runtime, original: SocketAddr, id: FlowId) -> (r: Result<
    (Endpoint, Target),
    Error,
>)
    ensures
        match r {
            Ok((e, t)) => stream_of(runtime@, original, id) == Ok::<
                (EndpointView, DestinationView),
                ErrorView,
            >((e@, t@)),
            Err(e) => stream_of(runtime@, original, id) == Err::<
                (EndpointView, DestinationView),
                ErrorView,
            >(e@),
        },
{
    match target_from_local(original) {
        Err(e) => Err(e),
        Ok(target) => match dispatch::stream_endpoint(runtime, &target, id) {
            Ok(endpoint) => Ok((endpoint, target)),
            Err(reason) => Err(rejection(reason)),
        },
    }
}

/// What the kernel says of a received datagram.
#[derive(Debug)]
pub struct DatagramMetadata {
    /// The datagram or its metadata did not fit.
    pub truncated: bool,
    pub client: Option<SocketAddr>,
    /// The original destinations that the metadata names, in order.
    pub destinations: Vec<SocketAddr>,
}

#[derive(Debug, PartialEq, Eq)]
pub struct InterceptedDatagram {
    pub client: SocketAddr,
    pub target: Target,
}

pub open spec fn intercepted(
    truncated: bool,
    client: Option<SocketAddr>,
    destinations: Seq<SocketAddr>,
) -> Result<(SocketAddr, DestinationView), ErrorView> {
    if truncated {
        Err(
            error::failure(
                ErrorKind::InvalidData,
                "transparent UDP datagram or original-destination metadata was truncated"@,
            ),
        )
    } else {
        match client {
            None => Err(error::failure(ErrorKind::InvalidData, "UDP client address missing"@)),
            Some(c) => if destinations.len() == 0 {
                Err(
                    error::failure(
                        ErrorKind::InvalidData,
                        "TPROXY UDP datagram arrived without original destination metadata"@,
                    ),
                )
            } else {
                let original = destinations.last();
                match proxy::target(HostView::Ip(original.ip), original.port) {
                    Ok(t) => Ok((c, t)),
                    Err(e) => Err(e),
                }
            },
        }
    }
}

/// The client and the original target of a datagram.
pub fn intercepted_datagram(metadata: &DatagramMetadata) -> (r: Result<InterceptedDatagram, Error>)
    ensures
        match r {
            Ok(d) => intercepted(metadata.truncated, metadata.client, metadata.destinations@)
                == Ok::<(SocketAddr, DestinationView), ErrorView>((d.client, d.target@)),
            Err(e) => intercepted(metadata.truncated, metadata.client, metadata.destinations@)
                == Err::<(SocketAddr, DestinationView), ErrorView>(e@),
        },
{
    if metadata.truncated {
        return Err(
            Error::new(
                ErrorKind::InvalidData,
                "transparent UDP datagram or original-destination metadata was truncated",
            ),
        );
    }
    let client = match metadata.client {
        Some(c) => c,
        None => {
            return Err(Error::new(ErrorKind::InvalidData, "UDP client address missing"));
        },
    };
    let count: usize = metadata.destinations.len();
    if count == 0 {
        return Err(
            Error::new(
                ErrorKind::InvalidData,
                "TPROXY UDP datagram arrived without original destination metadata",
            ),
        );
    }
    match target_from_local(metadata.destinations[count - 1]) {
        Ok(target) => Ok(InterceptedDatagram { client, target }),
        Err(e) => Err(e),
    }
}

/// The address that a reply must bear.
pub open spec fn reply_source(source: DestinationView) -> Result<SocketAddr, ErrorView> {
    match source.host {
        HostView::Ip(a) => Ok(SocketAddr::spec_new(a, source.port)),
        HostView::Domain(_) => Err(
            error::failure(
                ErrorKind::AddrNotAvailable,
                "transparent UDP reply source must be an IP address"@,
            ),
        ),
    }
}

pub fn target_socket_addr(target: &Target) -> (r: Result<SocketAddr, Error>)
    ensures
        match r {
            Ok(a) => reply_source(target@) == Ok::<SocketAddr, ErrorView>(a),
            Err(e) => reply_source(target@) == Err::<SocketAddr, ErrorView>(e@),
        },
{
    match target.host {
        DestinationHost::Ip(a) => Ok(SocketAddr::new(a, target.port)),
        DestinationHost::Domain(_) => Err(
            Error::new(
                ErrorKind::AddrNotAvailable,
                "transparent UDP reply source must be an IP address",
            ),
        ),
    }
}

pub open spec fn family_failure() -> ErrorView {
    error::failure(
        ErrorKind::InvalidInput,
        "transparent UDP reply source/client address families differ"@,
    )
}

/// A client can be answered only in the family of its address.
pub open spec fn reply_problem(source: DestinationView, client: SocketAddr) -> Option<ErrorView> {
    match reply_source(source) {
        Err(e) => Some(e),
        Ok(a) => if a.ip.spec_is_ipv4() != client.ip.spec_is_ipv4() {
            Some(family_failure())
        } else {
            None
        },
    }
}

/// What to do to answer from a source.
#[derive(Debug)]
pub enum ReplyStep {
    /// The socket with this number is bound to the source.
    Use(usize),
    /// A socket is to be bound to the source and put in.
    Bind(SocketAddr),
}

/// Sockets that are bound to the sources of replies; unused ones expire, and the
/// one that was used least recently makes room.
#[derive(Debug)]
pub struct ReplySockets<S> {
    sockets: IdleTable<S>,
}

impl<S> View for ReplySockets<S> {
    type V = Seq<IdleEntry<S>>;

    closed spec fn view(&self) -> Seq<IdleEntry<S>> {
        self.sockets@
    }
}

/// The sockets that are left when room is made for one more.
pub open spec fn has_made_room<S>(
    before: Seq<IdleEntry<S>>,
    after: Seq<IdleEntry<S>>,
    now: Instant,
) -> bool {
    let kept = idle::in_use(before, now, idle_limit());
    if kept.len() < MAX_REPLY_SOCKETS {
        after == kept
    } else {
        exists|k: int| #[trigger] idle::is_least_recent(kept, k) && after == kept.remove(k)
    }
}

impl<S> ReplySockets<S> {
    /// No more sockets than allowed, and no source twice.
    pub closed spec fn wf(self) -> bool {
        self.sockets.wf() && self@.len() <= MAX_REPLY_SOCKETS
    }

    pub proof fn lemma_wf(self)
        requires
            self.wf(),
        ensures
            self@.len() <= MAX_REPLY_SOCKETS,
            idle::distinct_keys(self@),
    {
    }

    pub fn new() -> (r: ReplySockets<S>)
        ensures
            r.wf(),
            r@ == Seq::<IdleEntry<S>>::empty(),
    {
        ReplySockets { sockets: IdleTable::new() }
    }

    /// Lets go of the sockets that have not been used for two minutes.
    pub fn cleanup_expired(&mut self, now: Instant)
        requires
            old(self).wf(),
        ensures
            final(self).wf(),
            final(self)@ == idle::in_use(old(self)@, now, idle_limit()),
    {
        proof {
            idle::lemma_in_use(self@, now, idle_limit());
        }
        let _gone = self.sockets.expire(
            now,
            Duration::from_secs(REPLY_SOCKET_IDLE_TIMEOUT_SECS),
        );
    }

    /// Finds the socket of a source, or makes room for it.
    pub fn prepare(&mut self, source: &Target, client: SocketAddr, now: Instant) -> (r: Result<
        ReplyStep,
        Error,
    >)
        requires
            old(self).wf(),
        ensures
            final(self).wf(),
            match r {
                Err(e) => reply_problem(source@, client) == Some(e@) && final(self)@ == old(self)@,
                Ok(step) => reply_problem(source@, client) is None && {
                    let key = reply_source(source@)->Ok_0;
                    match step {
                        ReplyStep::Use(i) => {
                            &&& final(self)@ == old(self)@
                            &&& i < old(self)@.len() && old(self)@[i as int].key == key
                        },
                        ReplyStep::Bind(a) => {
                            &&& a == key
                            &&& !idle::has_key(old(self)@, key)
                            &&& has_made_room(old(self)@, final(self)@, now)
                            &&& !idle::has_key(final(self)@, key)
                            &&& final(self)@.len() < MAX_REPLY_SOCKETS
                        },
                    }
                },
            },
    {
        let address = match target_socket_addr(source) {
            Ok(a) => a,
            Err(e) => {
                return Err(e);
            },
        };
        if address.ip.is_ipv4() != client.ip.is_ipv4() {
            return Err(
                Error::new(
                    ErrorKind::InvalidInput,
                    "transparent UDP reply source/client address families differ",
                ),
            );
        }
        match self.sockets.find(address) {
            Some(i) => Ok(ReplyStep::Use(i)),
            None => {
                let ghost before = self@;
                self.cleanup_expired(now);
                let ghost kept = self@;
                proof {
                    idle::lemma_in_use(before, now, idle_limit());
                    assert(!idle::has_key(kept, address)) by {
                        if idle::has_key(kept, address) {
                            let j = choose|j: int|
                                0 <= j < kept.len() && (#[trigger] kept[j]).key == address;
                            assert(idle::has_key(before, kept[j].key));
                        }
                    }
                }
                if self.sockets.len() >= MAX_REPLY_SOCKETS {
                    let _oldest = self.sockets.remove_oldest();
                    proof {
                        let k = choose|k: int| #[trigger]
                            idle::is_least_recent(kept, k) && self@ == kept.remove(k);
                        assert(!idle::has_key(self@, address)) by {
                            if idle::has_key(self@, address) {
                                let j = choose|j: int|
                                    0 <= j < self@.len() && (#[trigger] self@[j]).key == address;
                                assert(self@[j] == kept[if j < k {
                                    j
                                } else {
                                    j + 1
                                }]);
                            }
                        }
                    }
                }
                Ok(ReplyStep::Bind(address))
            },
        }
    }

    /// Puts in a socket that was bound to a source.
    pub fn bound(&mut self, source: SocketAddr, socket: S, now: Instant) -> (r: usize)
        requires
            old(self).wf(),
            !idle::has_key(old(self)@, source),
            old(self)@.len() < MAX_REPLY_SOCKETS,
        ensures
            final(self).wf(),
            r == old(self)@.len(),
            final(self)@ == old(self)@.push(IdleEntry { key: source, last: now, value: socket }),
    {
        let index = self.sockets.len();
        self.sockets.insert(source, now, socket);
        index
    }

    /// The socket to answer from.
    pub fn socket(&self, i: usize) -> (r: &S)
        requires
            i < self@.len(),
        ensures
            *r == self@[i as int].value,
    {
        self.sockets.value(i)
    }

    /// The socket took `sent` of the `length` bytes.
    pub fn sent(&mut self, i: usize, length: usize, sent: usize, now: Instant) -> (r: Result<
        (),
        Error,
    >)
        requires
            old(self).wf(),
            i < old(self)@.len(),
        ensures
            final(self).wf(),
            match r {
                Ok(_) => sent == length && final(self)@ == old(self)@.update(
                    i as int,
                    IdleEntry { last: now, ..old(self)@[i as int] },
                ),
                Err(e) => sent != length && final(self)@ == old(self)@ && e@ == error::failure(
                    ErrorKind::WriteZero,
                    "transparent UDP reply reported a partial datagram send"@,
                ),
            },
    {
        if sent != length {
            return Err(
                Error::new(
                    ErrorKind::WriteZero,
                    "transparent UDP reply reported a partial datagram send",
                ),
            );
        }
        self.sockets.touch(i, now);
        Ok(())
    }
}

/// The clients of a listener: each has its own routes, and owns the readiness
/// tokens of those that it has sent through.
pub struct TransparentClients<E> {
    clients: IdleTable<DatagramRouteSet<E>>,
    owners: HashMap<usize, SocketAddr>,
}

pub type ClientEntry<E> = IdleEntry<DatagramRouteSet<E>>;

#[verifier::ext_equal]
pub struct ClientsView<E> {
    pub clients: Seq<ClientEntry<E>>,
    pub owners: Map<usize, SocketAddr>,
}

impl<E> View for TransparentClients<E> {
    type V = ClientsView<E>;

    closed spec fn view(&self) -> ClientsView<E> {
        ClientsView { clients: self.clients@, owners: self.owners@ }
    }
}

/// The token belongs to a route of one of the clients.
pub open spec fn has_token<E>(clients: Seq<ClientEntry<E>>, token: usize) -> bool {
    exists|i: int|
        0 <= i < clients.len() && datagram::tokens_of((#[trigger] clients[i]).value@).contains(
            token,
        )
}

/// The owners without the tokens of clients that are gone.
pub open spec fn owners_without<E>(
    owners: Map<usize, SocketAddr>,
    gone: Seq<ClientEntry<E>>,
) -> Map<usize, SocketAddr> {
    Map::new(
        |t: usize| owners.contains_key(t) && !has_token(gone, t),
        |t: usize| owners[t],
    )
}

/// The owners with the tokens of one more client.
pub open spec fn owners_with(
    owners: Map<usize, SocketAddr>,
    tokens: Seq<usize>,
    client: SocketAddr,
) -> Map<usize, SocketAddr> {
    Map::new(
        |t: usize| owners.contains_key(t) || tokens.contains(t),
        |t: usize|
            if tokens.contains(t) {
                client
            } else {
                owners[t]
            },
    )
}

impl<E> ClientsView<E> {
    /// What is left of the clients after some time.
    pub open spec fn cleaned(self, now: Instant) -> ClientsView<E> {
        ClientsView {
            clients: idle::in_use(self.clients, now, idle_limit()),
            owners: owners_without(
                self.owners,
                idle::out_of_use(self.clients, now, idle_limit()),
            ),
        }
    }
}

impl<E> TransparentClients<E> {
    /// No more clients than allowed, none twice, and each with sound routes.
    pub closed spec fn wf(self) -> bool {
        &&& self.clients.wf()
        &&& self@.clients.len() <= MAX_CLIENTS
        &&& forall|i: int| 0 <= i < self@.clients.len() ==> (#[trigger] self@.clients[i]).value.wf()
    }

    pub proof fn lemma_wf(self)
        requires
            self.wf(),
        ensures
            self@.clients.len() <= MAX_CLIENTS,
            idle::distinct_keys(self@.clients),
    {
    }

    pub fn new() -> (r: TransparentClients<E>)
        ensures
            r.wf(),
            r@ == (ClientsView {
                clients: Seq::<ClientEntry<E>>::empty(),
                owners: Map::<usize, SocketAddr>::empty(),
            }),
    {
        broadcast use vstd::std_specs::hash::group_hash_axioms;

        TransparentClients { clients: IdleTable::new(), owners: HashMap::new() }
    }

    /// The time until the first client expires.
    pub fn next_timeout(&self, now: Instant) -> (r: Option<Duration>)
        ensures
            match r {
                Some(d) => idle::soonest(self@.clients, now, idle_limit()) == Some(d.nanos as nat),
                None => idle::soonest(self@.clients, now, idle_limit()) is None,
            },
    {
        self.clients.next_timeout(now, Duration::from_secs(CLIENT_IDLE_TIMEOUT_SECS))
    }

    /// Lets go of the clients that have been silent for two minutes, and of their
    /// tokens.
    pub fn cleanup_idle(&mut self, now: Instant)
        requires
            old(self).wf(),
        ensures
            final(self).wf(),
            final(self)@ == old(self)@.cleaned(now),
    {
        broadcast use vstd::std_specs::hash::group_hash_axioms;

        let ghost start = self@;
        proof {
            lemma_parts(start.clients, now, idle_limit());
            idle::lemma_in_use(start.clients, now, idle_limit());
        }
        let gone = self.clients.expire(now, Duration::from_secs(CLIENT_IDLE_TIMEOUT_SECS));
        let ghost list = gone@;
        let mut i: usize = 0;
        assert(self.owners@ =~= owners_without(start.owners, list.take(0)));
        while i < gone.len()
            invariant
                i <= gone@.len(),
                list == gone@,
                self.clients@ == idle::in_use(start.clients, now, idle_limit()),
                self.clients.wf(),
                forall|j: int| 0 <= j < list.len() ==> (#[trigger] list[j]).value.wf(),
                self.owners@ == owners_without(start.owners, list.take(i as int)),
            decreases gone@.len() - i,
        {
            assert(list[i as int].value.wf());
            let tokens = gone[i].value.owned_tokens();
            let ghost before = self.owners@;
            let mut k: usize = 0;
            while k < tokens.len()
                invariant
                    k <= tokens@.len(),
                    self.clients@ == idle::in_use(start.clients, now, idle_limit()),
                    self.clients.wf(),
                    forall|t: usize| #[trigger]
                        self.owners@.contains_key(t) <==> before.contains_key(t)
                            && !tokens@.take(k as int).contains(t),
                    forall|t: usize| #[trigger]
                        self.owners@.contains_key(t) ==> self.owners@[t] == before[t],
                decreases tokens@.len() - k,
            {
                broadcast use vstd::std_specs::hash::group_hash_axioms;

                let token: usize = tokens[k];
                let _owner = self.owners.remove(&token);
                proof {
                    let a = tokens@.take(k as int);
                    let b = tokens@.take(k + 1);
                    assert(b =~= a.push(token));
                    assert forall|t: usize| b.contains(t) <==> (a.contains(t) || t == token) by {
                        if a.contains(t) {
                            let n = a.index_of(t);
                            assert(b[n] == t);
                        }
                        if t == token {
                            assert(b[k as int] == t);
                        }
                    }
                }
                k = k + 1;
            }
            proof {
                assert(tokens@.take(k as int) =~= tokens@);
                let a = list.take(i as int);
                let b = list.take(i + 1);
                assert forall|t: usize| has_token(b, t) <==> (has_token(a, t) || tokens@.contains(
                    t,
                )) by {
                    if has_token(a, t) {
                        let n = choose|n: int|
                            0 <= n < a.len() && datagram::tokens_of(
                                (#[trigger] a[n]).value@,
                            ).contains(t);
                        assert(b[n] == a[n]);
                    }
                    if tokens@.contains(t) {
                        assert(b[i as int].value == list[i as int].value);
                    }
                    if has_token(b, t) {
                        let n = choose|n: int|
                            0 <= n < b.len() && datagram::tokens_of(
                                (#[trigger] b[n]).value@,
                            ).contains(t);
                        if n < i {
                            assert(a[n] == b[n]);
                        }
                    }
                }
                assert(self.owners@ =~= owners_without(start.owners, b));
            }
            i = i + 1;
        }
        assert(list.take(i as int) =~= list);
        assert(self@ =~= start.cleaned(now));
    }

    /// The place of a client.
    pub fn find(&self, client: SocketAddr) -> (r: Option<usize>)
        ensures
            match r {
                Some(i) => i < self@.clients.len() && self@.clients[i as int].key == client,
                None => !idle::has_key(self@.clients, client),
            },
    {
        self.clients.find(client)
    }

    /// Finds a client, or takes it in where there is room once silent ones are gone.
    pub fn enter(&mut self, client: SocketAddr, now: Instant) -> (r: Option<usize>)
        requires
            old(self).wf(),
        ensures
            final(self).wf(),
            if idle::has_key(old(self)@.clients, client) {
                &&& final(self)@ == old(self)@
                &&& r matches Some(i) && i < old(self)@.clients.len() && old(self)@.clients[i as int].key == client
            } else {
                let cleaned = old(self)@.cleaned(now);
                if cleaned.clients.len() >= MAX_CLIENTS {
                    r is None && final(self)@ == cleaned
                } else {
                    &&& r matches Some(i) && i == cleaned.clients.len()
                    &&& final(self)@.owners == cleaned.owners
                    &&& final(self)@.clients == cleaned.clients.push(
                        IdleEntry {
                            key: client,
                            last: now,
                            value: final(self)@.clients.last().value,
                        },
                    )
                    &&& final(self)@.clients.last().value@ == Seq::<RouteView<E>>::empty()
                    &&& final(self)@.clients.last().value.spec_token_end() == 0
                }
            },
    {
        if let Some(i) = self.clients.find(client) {
            return Some(i);
        }
        let ghost before = self@.clients;
        self.cleanup_idle(now);
        let ghost kept = self@.clients;
        proof {
            idle::lemma_in_use(before, now, idle_limit());
            assert(!idle::has_key(kept, client)) by {
                if idle::has_key(kept, client) {
                    let j = choose|j: int| 0 <= j < kept.len() && (#[trigger] kept[j]).key == client;
                    assert(idle::has_key(before, kept[j].key));
                }
            }
        }
        let index: usize = self.clients.len();
        if index >= MAX_CLIENTS {
            return None;
        }
        let routes: DatagramRouteSet<E> = DatagramRouteSet::new();
        self.clients.insert(client, now, routes);
        Some(index)
    }

    /// What to do with a datagram of a client for an endpoint.
    pub fn route(&self, client: usize, endpoint: &Endpoint) -> (r: RouteStep)
        requires
            self.wf(),
            client < self@.clients.len(),
        ensures
            match r {
                RouteStep::Reuse(i) => i < self@.clients[client as int].value@.len()
                    && self@.clients[client as int].value@[i as int].endpoint == endpoint@,
                RouteStep::Open => !datagram::has_route(
                    self@.clients[client as int].value@,
                    endpoint@,
                ) && self@.clients[client as int].value@.len() < datagram::MAX_DATAGRAM_ROUTES,
                RouteStep::Refuse(e) => !datagram::has_route(
                    self@.clients[client as int].value@,
                    endpoint@,
                ) && self@.clients[client as int].value@.len() == datagram::MAX_DATAGRAM_ROUTES
                    && e@ == datagram::route_limit_failure(),
            },
    {
        assert(self@.clients[client as int].value.wf());
        self.clients.value(client).route(endpoint)
    }

    /// The path of a client that owns a token.
    pub fn route_of(&self, client: usize, token: usize) -> (r: Option<usize>)
        requires
            client < self@.clients.len(),
        ensures
            match r {
                Some(i) => i < self@.clients[client as int].value@.len()
                    && self@.clients[client as int].value@[i as int].owns(token as nat),
                None => forall|i: int|
                    0 <= i < self@.clients[client as int].value@.len()
                        ==> !(#[trigger] self@.clients[client as int].value@[i]).owns(
                        token as nat,
                    ),
            },
    {
        self.clients.value(client).owner(token)
    }

    /// Puts in a path that was opened for a client.
    pub fn insert_route(
        &mut self,
        client: usize,
        endpoint: Endpoint,
        execution: E,
        first_token: usize,
        token_count: usize,
    ) -> (r: Result<usize, Error>)
        requires
            old(self).wf(),
            client < old(self)@.clients.len(),
            !datagram::has_route(old(self)@.clients[client as int].value@, endpoint@),
            old(self)@.clients[client as int].value@.len() < datagram::MAX_DATAGRAM_ROUTES,
        ensures
            final(self).wf(),
            final(self)@.owners == old(self)@.owners,
            final(self)@.clients.len() == old(self)@.clients.len(),
            forall|j: int|
                0 <= j < old(self)@.clients.len() && j != client ==> #[trigger] final(self)@.clients[j] == old(self)@.clients[j],
            final(self)@.clients[client as int].key == old(self)@.clients[client as int].key,
            final(self)@.clients[client as int].last == old(self)@.clients[client as int].last,
            match r {
                Ok(i) => {
                    let routes = old(self)@.clients[client as int].value@;
                    &&& old(self)@.clients[client as int].value.spec_token_end() <= first_token
                    &&& final(self)@.clients[client as int].value.spec_token_end() == first_token
                        + token_count
                    &&& i == routes.len()
                    &&& final(self)@.clients[client as int].value@ == routes.push(
                        RouteView {
                            endpoint: endpoint@,
                            first_token: first_token as nat,
                            token_count: token_count as nat,
                            execution,
                        },
                    )
                },
                Err(e) => {
                    &&& first_token < old(self)@.clients[client as int].value.spec_token_end()
                        || first_token + token_count > usize::MAX
                    &&& final(self)@ == old(self)@
                    &&& e@ == error::failure(
                        ErrorKind::Other,
                        "datagram readiness tokens overlap"@,
                    )
                },
            },
    {
        let ghost start = self@.clients;
        assert(start[client as int].value.wf());
        let r = self.clients.value_mut(client).insert(
            endpoint,
            execution,
            first_token,
            token_count,
        );
        proof {
            assert forall|i: int| 0 <= i < self@.clients.len() implies (
            #[trigger] self@.clients[i]).value.wf() by {
                if i != client {
                    assert(self@.clients[i] == start[i]);
                }
            }
            assert forall|i: int, j: int|
                #![trigger self@.clients[i], self@.clients[j]]
                0 <= i < j < self@.clients.len() implies self@.clients[i].key
                != self@.clients[j].key by {
                assert(start[i].key != start[j].key);
            }
        }
        r
    }

    /// A datagram of a client went on its way: its routes' tokens are its own now.
    pub fn datagram_sent(&mut self, client: usize, now: Instant)
        requires
            old(self).wf(),
            client < old(self)@.clients.len(),
        ensures
            final(self).wf(),
            final(self)@.clients == old(self)@.clients.update(
                client as int,
                IdleEntry { last: now, ..old(self)@.clients[client as int] },
            ),
            final(self)@.owners == owners_with(
                old(self)@.owners,
                datagram::tokens_of(old(self)@.clients[client as int].value@),
                old(self)@.clients[client as int].key,
            ),
    {
        broadcast use vstd::std_specs::hash::group_hash_axioms;

        let ghost start = self@;
        assert(start.clients[client as int].value.wf());
        let tokens = self.clients.value(client).owned_tokens();
        let key = self.clients.key(client);
        let mut k: usize = 0;
        assert(self.owners@ =~= owners_with(start.owners, tokens@.take(0), key));
        while k < tokens.len()
            invariant
                k <= tokens@.len(),
                self.clients@ == start.clients,
                self.clients.wf(),
                self.owners@ == owners_with(start.owners, tokens@.take(k as int), key),
            decreases tokens@.len() - k,
        {
            broadcast use vstd::std_specs::hash::group_hash_axioms;

            let token: usize = tokens[k];
            self.owners.insert(token, key);
            proof {
                let a = tokens@.take(k as int);
                let b = tokens@.take(k + 1);
                assert(b =~= a.push(token));
                assert forall|t: usize| b.contains(t) <==> (a.contains(t) || t == token) by {
                    if a.contains(t) {
                        let n = a.index_of(t);
                        assert(b[n] == t);
                    }
                    if t == token {
                        assert(b[k as int] == t);
                    }
                }
                assert(self.owners@ =~= owners_with(start.owners, b, key));
            }
            k = k + 1;
        }
        assert(tokens@.take(k as int) =~= tokens@);
        self.clients.touch(client, now);
        proof {
            assert forall|i: int| 0 <= i < self@.clients.len() implies (
            #[trigger] self@.clients[i]).value.wf() by {
                assert(start.clients[i].value.wf());
            }
        }
    }

    /// A client was heard of.
    pub fn touch(&mut self, client: usize, now: Instant)
        requires
            old(self).wf(),
            client < old(self)@.clients.len(),
        ensures
            final(self).wf(),
            final(self)@ == (ClientsView {
                clients: old(self)@.clients.update(
                    client as int,
                    IdleEntry { last: now, ..old(self)@.clients[client as int] },
                ),
                ..old(self)@
            }),
    {
        let ghost start = self@;
        self.clients.touch(client, now);
        proof {
            assert forall|i: int| 0 <= i < self@.clients.len() implies (
            #[trigger] self@.clients[i]).value.wf() by {
                assert(start.clients[i].value.wf());
            }
        }
    }

    /// The client that a token belongs to.
    pub fn owner(&self, token: usize) -> (r: Option<SocketAddr>)
        ensures
            match r {
                Some(a) => self@.owners.contains_key(token) && self@.owners[token] == a,
                None => !self@.owners.contains_key(token),
            },
    {
        broadcast use vstd::std_specs::hash::group_hash_axioms;

        match self.owners.get(&token) {
            Some(a) => Some(*a),
            None => None,
        }
    }

    /// A token no longer belongs to anybody.
    pub fn forget(&mut self, token: usize)
        requires
            old(self).wf(),
        ensures
            final(self).wf(),
            final(self)@ == (ClientsView {
                owners: old(self)@.owners.remove(token),
                ..old(self)@
            }),
    {
        broadcast use vstd::std_specs::hash::group_hash_axioms;

        let _owner = self.owners.remove(&token);
        assert(self@.clients == old(self)@.clients);
    }

    /// An open path of a client, to be used.
    pub fn execution_mut(&mut self, client: usize, route: usize) -> (r: &mut E)
        requires
            old(self).wf(),
            client < old(self)@.clients.len(),
            route < old(self)@.clients[client as int].value@.len(),
        ensures
            *r == old(self)@.clients[client as int].value@[route as int].execution,
            final(self)@.owners == old(self)@.owners,
            final(self)@.clients.len() == old(self)@.clients.len(),
            forall|j: int|
                0 <= j < old(self)@.clients.len() && j != client ==> #[trigger] final(
                self)@.clients[j] == old(self)@.clients[j],
            final(self)@.clients[client as int].key == old(self)@.clients[client as int].key,
            final(self)@.clients[client as int].last == old(self)@.clients[client as int].last,
            final(self)@.clients[client as int].value@ == old(self)@.clients[client as int].value@.update(
                route as int,
                RouteView {
                    execution: *final(r),
                    ..old(self)@.clients[client as int].value@[route as int]
                },
            ),
            final(self)@.clients[client as int].value.spec_token_end() == old(
                self)@.clients[client as int].value.spec_token_end(),
            final(self).wf(),
    {
        proof {
            let s = self@.clients;
            assert forall|v: DatagramRouteSet<E>| #[trigger] v.wf() implies {
                let t = s.update(
                    client as int,
                    IdleEntry { key: s[client as int].key, last: s[client as int].last, value: v },
                );
                &&& idle::distinct_keys(t)
                &&& forall|k: int| 0 <= k < t.len() ==> (#[trigger] t[k]).value.wf()
            } by {
                let t = s.update(
                    client as int,
                    IdleEntry { key: s[client as int].key, last: s[client as int].last, value: v },
                );
                assert forall|a: int, b: int|
                    #![trigger t[a], t[b]]
                    0 <= a < b < t.len() implies t[a].key != t[b].key by {
                    assert(s[a].key != s[b].key);
                }
                assert forall|k: int| 0 <= k < t.len() implies (#[trigger] t[k]).value.wf() by {
                    if k != client {
                        assert(s[k].value.wf());
                    }
                }
            }
        }
        assert(self@.clients[client as int].value.wf());
        self.clients.value_mut(client).execution_mut(route)
    }
}

proof fn lemma_parts<E>(s: Seq<ClientEntry<E>>, now: Instant, limit: Duration)
    requires
        forall|i: int| 0 <= i < s.len() ==> (#[trigger] s[i]).value.wf(),
    ensures
        forall|i: int|
            0 <= i < idle::in_use(s, now, limit).len() ==> (#[trigger] idle::in_use(
                s,
                now,
                limit,
            )[i]).value.wf(),
        forall|i: int|
            0 <= i < idle::out_of_use(s, now, limit).len() ==> (#[trigger] idle::out_of_use(
                s,
                now,
                limit,
            )[i]).value.wf(),
    decreases s.len(),
{
    if s.len() > 0 {
        let p = s.drop_last();
        assert forall|i: int| 0 <= i < p.len() implies (#[trigger] p[i]).value.wf() by {
            assert(s[i].value.wf());
        }
        assert(s[s.len() - 1].value.wf());
        lemma_parts(p, now, limit);
    }
}

/// A redirected stream goes to the address that it was meant for, over the endpoint that the
/// policy names for it, and is refused when the policy rejects it or there is no such address.
pub proof fn law_intercepted_stream_goes_to_its_destination(
    policy: EngineView,
    original: SocketAddr,
    id: FlowId,
)
    ensures
        stream_of(policy, original, id) matches Ok((endpoint, target)) ==> {
            &&& target.host == HostView::Ip(original.ip)
            &&& target.port == original.port
            &&& dispatch::planned(policy, target, TransportProtocol::Tcp, id) == (
            ExecutionView::Route { endpoint })
        },
        original.port > 0 ==> {
            let target = DestinationView { host: HostView::Ip(original.ip), port: original.port };
            &&& stream_of(policy, original, id) is Ok <==> dispatch::planned(
                policy,
                target,
                TransportProtocol::Tcp,
                id,
            ) is Route
            &&& stream_of(policy, original, id) matches Err(e) ==> e.kind
                == ErrorKind::PermissionDenied
        },
        original.port == 0 ==> (stream_of(policy, original, id) matches Err(e) && e.kind
            == ErrorKind::InvalidInput),
{
}

/// A redirected datagram comes from its sender and was meant for the last destination that its
/// metadata names. It is refused only when it is cut off, when its sender or its destination
/// is not known, and when the destination has no port.
pub proof fn law_intercepted_datagram_names_its_destination(
    truncated: bool,
    client: Option<SocketAddr>,
    destinations: Seq<SocketAddr>,
)
    ensures
        intercepted(truncated, client, destinations) is Ok <==> !truncated && client is Some
            && destinations.len() > 0 && destinations.last().port > 0,
        intercepted(truncated, client, destinations) matches Ok((source, target)) ==> {
            let original = destinations[destinations.len() - 1];
            &&& client == Some(source)
            &&& target.host == HostView::Ip(original.ip)
            &&& target.port == original.port
        },
        truncated || client is None || destinations.len() == 0 ==> (intercepted(
            truncated,
            client,
            destinations,
        ) matches Err(e) && e.kind == ErrorKind::InvalidData),
{
}

/// A reply leaves from the address that it came from, and can be sent only from an address of
/// the client's family.
pub proof fn law_reply_leaves_from_its_source(source: DestinationView, client: SocketAddr)
    ensures
        reply_source(source) is Ok <==> source.host is Ip,
        reply_source(source) matches Ok(a) ==> source.host == HostView::Ip(a.ip) && a.port
            == source.port,
        reply_source(source) matches Err(e) ==> e.kind == ErrorKind::AddrNotAvailable,
        reply_problem(source, client) is None <==> (source.host matches HostView::Ip(a)
            && a.spec_is_ipv4() == client.ip.spec_is_ipv4()),
        reply_problem(source, client) matches Some(e) ==> (source.host is Ip <==> e.kind
            == ErrorKind::InvalidInput),
{
}

/// Room for a reply socket is made by closing those that were unused for 120 seconds, and where
/// that is not enough, the one that was used least recently and no other.
#[verifier::rlimit(30)]
pub proof fn law_room_is_made_by_the_least_recent<S>(
    before: Seq<IdleEntry<S>>,
    after: Seq<IdleEntry<S>>,
    now: Instant,
    e: IdleEntry<S>,
    other: IdleEntry<S>,
)
    requires
        before.len() <= 256,
        has_made_room(before, after, now),
    ensures
        after.len() < 256,
        after.contains(e) ==> before.contains(e) && now.nanos < e.last.nanos + 120_000_000_000,
        before.contains(e) && now.nanos < e.last.nanos + 120_000_000_000 && !after.contains(e) ==> {
            &&& after.len() == 255
            &&& after.contains(other) ==> e.last.nanos <= other.last.nanos
        },
{
    let kept = idle::in_use(before, now, idle_limit());
    idle::law_entries_go_after_the_limit(before, now, idle_limit(), e);
    idle::law_entries_go_after_the_limit(before, now, idle_limit(), other);
    if kept.len() >= MAX_REPLY_SOCKETS {
        let k = choose|k: int| #[trigger]
            idle::is_least_recent(kept, k) && after == kept.remove(k);
        if after.contains(e) {
            let i = choose|i: int| 0 <= i < after.len() && after[i] == e;
            assert(kept[if i < k {
                i
            } else {
                i + 1
            }] == e);
        }
        if after.contains(other) {
            let i = choose|i: int| 0 <= i < after.len() && after[i] == other;
            assert(kept[if i < k {
                i
            } else {
                i + 1
            }] == other);
        }
        if kept.contains(e) && !after.contains(e) {
            let i = choose|i: int| 0 <= i < kept.len() && kept[i] == e;
            if i < k {
                assert(after[i] == e);
            } else if i > k {
                assert(after[i - 1] == e);
            }
            assert(e == kept[k]);
        }
    }
}

/// A client that was silent for 120 seconds is forgotten with the tokens of its paths; every
/// other client stays, and so do the tokens that belong to nobody who left.
#[verifier::rlimit(30)]
pub proof fn law_silent_clients_are_forgotten<E>(
    clients: ClientsView<E>,
    now: Instant,
    e: ClientEntry<E>,
    token: usize,
)
    ensures
        clients.cleaned(now).clients.contains(e) <==> clients.clients.contains(e) && now.nanos
            < e.last.nanos + 120_000_000_000,
        clients.cleaned(now).owners.contains_key(token) ==> {
            &&& clients.owners.contains_key(token)
            &&& clients.cleaned(now).owners[token] == clients.owners[token]
            &&& clients.clients.contains(e) && now.nanos >= e.last.nanos + 120_000_000_000
                ==> !datagram::tokens_of(e.value@).contains(token)
        },
        clients.owners.contains_key(token) && !clients.cleaned(now).owners.contains_key(token)
            ==> exists|gone: ClientEntry<E>| #[trigger]
            clients.clients.contains(gone) && now.nanos >= gone.last.nanos + 120_000_000_000
                && datagram::tokens_of(gone.value@).contains(token),
{
    let limit = idle_limit();
    let gone = idle::out_of_use(clients.clients, now, limit);
    idle::law_entries_go_after_the_limit(clients.clients, now, limit, e);
    if gone.contains(e) {
        let i = choose|i: int| 0 <= i < gone.len() && gone[i] == e;
        assert(gone[i] == e);
    }
    if has_token(gone, token) {
        let i = choose|i: int|
            0 <= i < gone.len() && datagram::tokens_of((#[trigger] gone[i]).value@).contains(token);
        idle::law_entries_go_after_the_limit(clients.clients, now, limit, gone[i]);
        assert(gone.contains(gone[i]));
        assert(clients.clients.contains(gone[i]));
    }
}

/// The tokens of a path belong to the client that sent over it last, and no other changes its
/// owner.
pub proof fn law_tokens_belong_to_the_sender(
    owners: Map<usize, SocketAddr>,
    tokens: Seq<usize>,
    client: SocketAddr,
    token: usize,
)
    ensures
        ({
            let after = owners_with(owners, tokens, client);
            &&& tokens.contains(token) ==> after.contains_key(token) && after[token] == client
            &&& !tokens.contains(token) ==> (after.contains_key(token) <==> owners.contains_key(
                token,
            ))
            &&& !tokens.contains(token) && owners.contains_key(token) ==> after[token]
                == owners[token]
        }),
{
}

} // verus!
