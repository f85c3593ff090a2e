//! The registry of named proxy endpoints and the routes that it allows.

use crate::error;
use crate::error::{Error, ErrorKind, ErrorView};
use crate::plan::{Endpoint, EndpointId, EndpointView};
use crate::protocol::{OutboundProtocol, ProtocolView};
use crate::text;
use crate::transport::{
    TcpTransport, TcpTransportView, TlsTransport, TlsTransportView, TransportCapabilities,
};
use std::sync::Arc;
use vstd::prelude::*;
use vstd::string::*;

verus! {

/// The carrier of a proxy endpoint's streams.
pub enum TransportConfig {
    Tcp(TcpTransport),
    Tls(TlsTransport),
}

#[verifier::ext_equal]
pub enum TransportView {
    Tcp(TcpTransportView),
    Tls(TlsTransportView),
}

impl View for TransportConfig {
    type V = TransportView;

    open spec fn view(&self) -> TransportView {
        match self {
            TransportConfig::Tcp(t) => TransportView::Tcp(t@),
            TransportConfig::Tls(t) => TransportView::Tls(t@),
        }
    }
}

impl TransportView {
    pub open spec fn capabilities(self) -> TransportCapabilities {
        TransportCapabilities { reliable_stream: true, datagram: false, encrypted: self is Tls }
    }
}

impl TransportConfig {
    /// The client settings of a TLS transport.
    pub open spec fn settings(self) -> Option<Arc<rustls::ClientConfig>> {
        match self {
            TransportConfig::Tcp(_) => None,
            TransportConfig::Tls(t) => Some(t.spec_config()),
        }
    }

    pub fn capabilities(&self) -> (r: TransportCapabilities)
        ensures
            r == self@.capabilities(),
    {
        match self {
            TransportConfig::Tcp(t) => t.capabilities(),
            TransportConfig::Tls(t) => t.capabilities(),
        }
    }

    pub fn is_tls(&self) -> (r: bool)
        ensures
            r == (self@ is Tls),
    {
        match self {
            TransportConfig::Tcp(_) => false,
            TransportConfig::Tls(_) => true,
        }
    }
}

/// A named proxy: a stream protocol over a transport, and independently of them
/// an optional provider of datagram execution.
pub struct ProxyEndpointConfig<D> {
    pub id: EndpointId,
    pub protocol: OutboundProtocol,
    pub datagram: Option<D>,
    pub transport: TransportConfig,
}

#[verifier::ext_equal]
pub struct ProxyEndpointView<D> {
    pub id: Seq<char>,
    pub protocol: ProtocolView,
    pub datagram: Option<D>,
    pub transport: TransportView,
    /// The client settings of a TLS transport.
    pub settings: Option<Arc<rustls::ClientConfig>>,
}

impl<D> View for ProxyEndpointConfig<D> {
    type V = ProxyEndpointView<D>;

    open spec fn view(&self) -> ProxyEndpointView<D> {
        ProxyEndpointView {
            id: self.id@,
            protocol: self.protocol@,
            datagram: self.datagram,
            transport: self.transport@,
            settings: self.transport.settings(),
        }
    }
}

pub open spec fn endpoint_views<D>(v: Seq<ProxyEndpointConfig<D>>) -> Seq<ProxyEndpointView<D>> {
    Seq::new(v.len(), |i: int| v[i]@)
}

/// The endpoint of that name.
pub open spec fn lookup<D>(list: Seq<ProxyEndpointView<D>>, id: Seq<char>) -> Option<
    ProxyEndpointView<D>,
>
    decreases list.len(),
{
    if list.len() == 0 {
        None
    } else if list[0].id == id {
        Some(list[0])
    } else {
        lookup(list.drop_first(), id)
    }
}

#[derive(Clone, Copy, Debug, PartialEq, Eq, Structural)]
pub struct EndpointCapabilities {
    tcp: bool,
    udp: bool,
    encrypted_transport: bool,
}

impl EndpointCapabilities {
    pub closed spec fn spec_tcp(self) -> bool {
        self.tcp
    }

    pub closed spec fn spec_udp(self) -> bool {
        self.udp
    }

    pub closed spec fn spec_encrypted(self) -> bool {
        self.encrypted_transport
    }

    pub fn supports_tcp(self) -> (r: bool)
        ensures
            r == self.spec_tcp(),
    {
        self.tcp
    }

    pub fn supports_udp(self) -> (r: bool)
        ensures
            r == self.spec_udp(),
    {
        self.udp
    }

    pub fn encrypted_transport(self) -> (r: bool)
        ensures
            r == self.spec_encrypted(),
    {
        self.encrypted_transport
    }
}

/// The capabilities are these three.
pub open spec fn capable(c: EndpointCapabilities, tcp: bool, udp: bool, encrypted: bool) -> bool {
    c.spec_tcp() == tcp && c.spec_udp() == udp && c.spec_encrypted() == encrypted
}

pub open spec fn no_tls_failure(protocol: Seq<char>, id: Seq<char>) -> ErrorView {
    error::failure(
        ErrorKind::InvalidInput,
        protocol + " endpoint `"@ + id + "` requires a TLS transport"@,
    )
}

pub open spec fn duplicate_failure(id: Seq<char>) -> ErrorView {
    error::failure(ErrorKind::InvalidInput, "duplicate outbound endpoint `"@ + id + "`"@)
}

/// Why the last endpoint of a list cannot join those in front of it.
pub open spec fn endpoint_problem<D>(list: Seq<ProxyEndpointView<D>>) -> Option<ErrorView> {
    let e = list.last();
    if e.protocol.capabilities().requires_tls && !(e.transport is Tls) {
        Some(no_tls_failure(e.protocol.name(), e.id))
    } else if lookup(list.drop_last(), e.id) is Some {
        Some(duplicate_failure(e.id))
    } else {
        None
    }
}

/// What is wrong with a list of endpoints: the problem of the first that has one.
pub open spec fn registry_problem<D>(list: Seq<ProxyEndpointView<D>>) -> Option<ErrorView>
    decreases list.len(),
{
    if list.len() == 0 {
        None
    } else {
        match registry_problem(list.drop_last()) {
            Some(e) => Some(e),
            None => endpoint_problem(list),
        }
    }
}

/// A stream to a target goes out directly or through a registered proxy.
pub enum TcpRoute<'a, D> {
    Direct,
    Proxy(&'a ProxyEndpointConfig<D>),
}

/// Datagrams go out directly or through the provider of a registered proxy.
pub enum DatagramRoute<'a, D> {
    Direct,
    Provider(&'a D),
}

/// The single authority on named proxy endpoints.
pub struct OutboundRegistry<D> {
    endpoints: Vec<ProxyEndpointConfig<D>>,
}

impl<D> View for OutboundRegistry<D> {
    type V = Seq<ProxyEndpointView<D>>;

    closed spec fn view(&self) -> Seq<ProxyEndpointView<D>> {
        endpoint_views(self.endpoints@)
    }
}

/// What an endpoint can carry, where there is such an endpoint.
pub open spec fn is_capable<D>(
    registry: Seq<ProxyEndpointView<D>>,
    endpoint: EndpointView,
    r: Option<EndpointCapabilities>,
) -> bool {
    match endpoint {
        EndpointView::Direct => r matches Some(c) && capable(c, true, true, false),
        EndpointView::Proxy(id) => match lookup(registry, id) {
            None => r is None,
            Some(e) => r matches Some(c) && capable(
                c,
                e.protocol.capabilities().stream_connect
                    && e.transport.capabilities().reliable_stream,
                e.datagram is Some,
                e.transport.capabilities().encrypted,
            ),
        },
    }
}

pub open spec fn unregistered_failure(id: Seq<char>) -> ErrorView {
    error::failure(ErrorKind::NotFound, "proxy endpoint `"@ + id + "` is not registered"@)
}

pub open spec fn no_datagram_failure(id: Seq<char>) -> ErrorView {
    error::failure(
        ErrorKind::Unsupported,
        "proxy endpoint `"@ + id + "` has no datagram execution provider"@,
    )
}

/// A failure in the first endpoints is the failure of the whole list.
proof fn lemma_problem_prefix<D>(list: Seq<ProxyEndpointView<D>>, n: int)
    requires
        0 <= n <= list.len(),
    ensures
        registry_problem(list.take(n)) is Some ==> registry_problem(list) == registry_problem(
            list.take(n),
        ),
    decreases list.len() - n,
{
    if n < list.len() {
        assert(list.take(n + 1).drop_last() == list.take(n));
        lemma_problem_prefix(list, n + 1);
    } else {
        assert(list.take(n) == list);
    }
}

proof fn lemma_lookup_none<D>(list: Seq<ProxyEndpointView<D>>, id: Seq<char>)
    requires
        forall|i: int| 0 <= i < list.len() ==> (#[trigger] list[i]).id != id,
    ensures
        lookup(list, id) is None,
    decreases list.len(),
{
    if list.len() > 0 {
        let rest = list.drop_first();
        assert forall|i: int| 0 <= i < rest.len() implies (#[trigger] rest[i]).id != id by {
            assert(list[i + 1].id != id);
        }
        lemma_lookup_none(rest, id);
    }
}

proof fn lemma_lookup_some<D>(list: Seq<ProxyEndpointView<D>>, id: Seq<char>, k: int)
    requires
        0 <= k < list.len(),
        list[k].id == id,
        forall|i: int| 0 <= i < k ==> (#[trigger] list[i]).id != id,
    ensures
        lookup(list, id) == Some(list[k]),
    decreases list.len(),
{
    if k > 0 {
        let rest = list.drop_first();
        assert forall|i: int| 0 <= i < k - 1 implies (#[trigger] rest[i]).id != id by {
            assert(list[i + 1].id != id);
        }
        assert(list[0].id != id);
        lemma_lookup_some(rest, id, k - 1);
    }
}

fn find<D>(endpoints: &Vec<ProxyEndpointConfig<D>>, count: usize, id: &EndpointId) -> (r: Option<
    usize,
>)
    requires
        count <= endpoints@.len(),
    ensures
        match r {
            Some(i) => i < count && lookup(endpoint_views(endpoints@).take(count as int), id@)
                == Some(endpoints@[i as int]@),
            None => lookup(endpoint_views(endpoints@).take(count as int), id@) is None,
        },
{
    let ghost list = endpoint_views(endpoints@).take(count as int);
    let mut i: usize = 0;
    while i < count
        invariant
            i <= count <= endpoints@.len(),
            list == endpoint_views(endpoints@).take(count as int),
            forall|j: int| 0 <= j < i ==> (#[trigger] list[j]).id != id@,
        decreases count - i,
    {
        assert(list[i as int] == endpoints@[i as int]@);
        if text::same(endpoints[i].id.as_str(), id.as_str()) {
            proof {
                lemma_lookup_some(list, id@, i as int);
            }
            return Some(i);
        }
        i = i + 1;
    }
    proof {
        lemma_lookup_none(list, id@);
    }
    None
}

impl<D> OutboundRegistry<D> {
    #[verifier::type_invariant]
    spec fn wf(self) -> bool {
        registry_problem(endpoint_views(self.endpoints@)) is None
    }

    /// A registry without proxies.
    pub fn empty() -> (r: OutboundRegistry<D>)
        ensures
            r@ == Seq::<ProxyEndpointView<D>>::empty(),
    {
        let endpoints: Vec<ProxyEndpointConfig<D>> = Vec::new();
        assert(endpoint_views(endpoints@) =~= Seq::<ProxyEndpointView<D>>::empty());
        OutboundRegistry { endpoints }
    }

    /// Takes the endpoints, which must have distinct names and the transport that
    /// their protocol requires.
    pub fn new(endpoints: Vec<ProxyEndpointConfig<D>>) -> (r: Result<OutboundRegistry<D>, Error>)
        ensures
            match r {
                Ok(registry) => registry_problem(endpoint_views(endpoints@)) is None && registry@
                    == endpoint_views(endpoints@),
                Err(e) => registry_problem(endpoint_views(endpoints@)) == Some(e@),
            },
    {
        let ghost list = endpoint_views(endpoints@);
        let mut i: usize = 0;
        while i < endpoints.len()
            invariant
                i <= endpoints@.len(),
                list == endpoint_views(endpoints@),
                registry_problem(list.take(i as int)) is None,
            decreases endpoints@.len() - i,
        {
            let endpoint = &endpoints[i];
            proof {
                assert(list.take(i + 1).drop_last() == list.take(i as int));
                assert(list.take(i + 1).last() == endpoint@);
                lemma_problem_prefix(list, i + 1);
            }
            if endpoint.protocol.capabilities().requires_tls && !endpoint.transport.is_tls() {
                let mut text = endpoint.protocol.name().to_owned();
                text.append(" endpoint `");
                text.append(endpoint.id.as_str());
                text.append("` requires a TLS transport");
                return Err(Error::new(ErrorKind::InvalidInput, text.as_str()));
            }
            if find(&endpoints, i, &endpoint.id).is_some() {
                return Err(
                    error::error3(
                        ErrorKind::InvalidInput,
                        "duplicate outbound endpoint `",
                        endpoint.id.as_str(),
                        "`",
                    ),
                );
            }
            i = i + 1;
        }
        assert(list.take(i as int) == list);
        Ok(OutboundRegistry { endpoints })
    }

    pub fn len(&self) -> (r: usize)
        ensures
            r == self@.len(),
    {
        self.endpoints.len()
    }

    fn get(&self, id: &EndpointId) -> (r: Option<&ProxyEndpointConfig<D>>)
        ensures
            match r {
                Some(e) => lookup(self@, id@) == Some(e@),
                None => lookup(self@, id@) is None,
            },
    {
        assert(self@.take(self.endpoints@.len() as int) == self@);
        match find(&self.endpoints, self.endpoints.len(), id) {
            Some(i) => Some(&self.endpoints[i]),
            None => None,
        }
    }

    pub fn contains(&self, id: &EndpointId) -> (r: bool)
        ensures
            r == lookup(self@, id@) is Some,
    {
        self.get(id).is_some()
    }

    /// What an endpoint can carry.
    pub fn capabilities(&self, endpoint: &Endpoint) -> (r: Option<EndpointCapabilities>)
        ensures
            is_capable(self@, endpoint@, r),
    {
        match endpoint {
            Endpoint::Direct => Some(
                EndpointCapabilities { tcp: true, udp: true, encrypted_transport: false },
            ),
            Endpoint::Proxy(id) => match self.get(id) {
                None => None,
                Some(config) => {
                    let transport = config.transport.capabilities();
                    let protocol = config.protocol.capabilities();
                    Some(
                        EndpointCapabilities {
                            tcp: protocol.stream_connect && transport.reliable_stream,
                            udp: config.datagram.is_some(),
                            encrypted_transport: transport.encrypted,
                        },
                    )
                },
            },
        }
    }

    /// The way that a stream to an endpoint takes.
    pub fn tcp_route(&self, endpoint: &Endpoint) -> (r: Result<TcpRoute<'_, D>, Error>)
        ensures
            match endpoint@ {
                EndpointView::Direct => r matches Ok(TcpRoute::Direct),
                EndpointView::Proxy(id) => match lookup(self@, id) {
                    Some(e) => r matches Ok(TcpRoute::Proxy(config)) && config@ == e,
                    None => r matches Err(f) && f@ == error::failure(
                        ErrorKind::Unsupported,
                        "selected outbound endpoint does not support TCP"@,
                    ),
                },
            },
    {
        let unsupported = match self.capabilities(endpoint) {
            Some(c) => !c.supports_tcp(),
            None => true,
        };
        if unsupported {
            return Err(
                Error::new(
                    ErrorKind::Unsupported,
                    "selected outbound endpoint does not support TCP",
                ),
            );
        }
        match endpoint {
            Endpoint::Direct => Ok(TcpRoute::Direct),
            Endpoint::Proxy(id) => match self.get(id) {
                Some(config) => Ok(TcpRoute::Proxy(config)),
                None => Err(
                    error::error3(
                        ErrorKind::NotFound,
                        "proxy endpoint `",
                        id.as_str(),
                        "` is not registered",
                    ),
                ),
            },
        }
    }

    /// The concrete datagram execution path of an endpoint.
    ///
    /// This is the single authority used by inbound datagram executors. A proxy
    /// without a provider is an error, for which callers must never substitute
    /// DIRECT.
    pub fn open_datagram(&self, endpoint: &Endpoint) -> (r: Result<DatagramRoute<'_, D>, Error>)
        ensures
            match endpoint@ {
                EndpointView::Direct => r matches Ok(DatagramRoute::Direct),
                EndpointView::Proxy(id) => match lookup(self@, id) {
                    None => r matches Err(e) && e@ == unregistered_failure(id),
                    Some(config) => match config.datagram {
                        None => r matches Err(e) && e@ == no_datagram_failure(id),
                        Some(d) => r matches Ok(DatagramRoute::Provider(p)) && *p == d,
                    },
                },
            },
    {
        match endpoint {
            Endpoint::Direct => Ok(DatagramRoute::Direct),
            Endpoint::Proxy(id) => match self.get(id) {
                None => Err(
                    error::error3(
                        ErrorKind::NotFound,
                        "proxy endpoint `",
                        id.as_str(),
                        "` is not registered",
                    ),
                ),
                Some(config) => match &config.datagram {
                    None => Err(
                        error::error3(
                            ErrorKind::Unsupported,
                            "proxy endpoint `",
                            id.as_str(),
                            "` has no datagram execution provider",
                        ),
                    ),
                    Some(provider) => Ok(DatagramRoute::Provider(provider)),
                },
            },
        }
    }
}

impl<D> Default for OutboundRegistry<D> {
    fn default() -> (r: OutboundRegistry<D>)
        ensures
            r@ == Seq::<ProxyEndpointView<D>>::empty(),
    {
        OutboundRegistry::empty()
    }
}

/// Every registered endpoint has the transport that its protocol requires, and no
/// name is registered twice.
pub proof fn law_registered_endpoints_are_sound<D>(list: Seq<ProxyEndpointView<D>>, i: int, j: int)
    requires
        registry_problem(list) is None,
        0 <= i < j < list.len(),
    ensures
        list[i].id != list[j].id,
        list[i].protocol.capabilities().requires_tls ==> list[i].transport is Tls,
        list[j].protocol.capabilities().requires_tls ==> list[j].transport is Tls,
    decreases list.len(),
{
    let front = list.drop_last();
    lemma_sound(front);
    lemma_sound(list);
    if j < front.len() {
        law_registered_endpoints_are_sound(front, i, j);
        assert(front[i] == list[i] && front[j] == list[j]);
    } else {
        if list[i].id == list[j].id {
            lemma_lookup_found(front, i);
        }
    }
}

proof fn lemma_sound<D>(list: Seq<ProxyEndpointView<D>>)
    requires
        registry_problem(list) is None,
    ensures
        forall|i: int|
            0 <= i < list.len() && (#[trigger] list[i]).protocol.capabilities().requires_tls
                ==> list[i].transport is Tls,
    decreases list.len(),
{
    if list.len() > 0 {
        let front = list.drop_last();
        lemma_sound(front);
        assert forall|i: int|
            0 <= i < list.len()
                && (#[trigger] list[i]).protocol.capabilities().requires_tls implies
            list[i].transport is Tls by {
            if i < front.len() {
                assert(front[i] == list[i]);
            }
        }
    }
}

proof fn lemma_lookup_found<D>(list: Seq<ProxyEndpointView<D>>, i: int)
    requires
        0 <= i < list.len(),
    ensures
        lookup(list, list[i].id) is Some,
    decreases list.len(),
{
    if i > 0 && list[0].id != list[i].id {
        assert(list.drop_first()[i - 1] == list[i]);
        lemma_lookup_found(list.drop_first(), i - 1);
    }
}

/// An endpoint is found under its name: the first one of that name, and none where
/// there is none.
pub proof fn law_lookup_finds_by_name<D>(list: Seq<ProxyEndpointView<D>>, id: Seq<char>)
    ensures
        match lookup(list, id) {
            Some(e) => e.id == id && list.contains(e),
            None => forall|i: int| 0 <= i < list.len() ==> (#[trigger] list[i]).id != id,
        },
        forall|i: int|
            0 <= i < list.len() && (#[trigger] list[i]).id == id && (forall|j: int|
                0 <= j < i ==> (#[trigger] list[j]).id != id) ==> lookup(list, id) == Some(list[i]),
    decreases list.len(),
{
    if list.len() > 0 {
        let rest = list.drop_first();
        law_lookup_finds_by_name(rest, id);
        if list[0].id != id {
            match lookup(list, id) {
                Some(e) => {
                    let k = rest.index_of(e);
                    assert(list[k + 1] == e);
                },
                None => {
                    assert forall|i: int| 0 <= i < list.len() implies (#[trigger] list[i]).id
                        != id by {
                        if i > 0 {
                            assert(rest[i - 1] == list[i]);
                        }
                    }
                },
            }
            assert forall|i: int|
                0 <= i < list.len() && (#[trigger] list[i]).id == id && (forall|j: int|
                    0 <= j < i ==> (#[trigger] list[j]).id != id) implies lookup(list, id) == Some(
                list[i],
            ) by {
                assert(rest[i - 1] == list[i]);
                assert forall|j: int| 0 <= j < i - 1 implies (#[trigger] rest[j]).id != id by {
                    assert(rest[j] == list[j + 1]);
                }
            }
        } else {
            assert(list[0] == lookup(list, id)->Some_0);
        }
    }
}

/// Endpoints are registered exactly where no two have one name and each that needs TLS
/// has it.
pub proof fn law_sound_endpoints_are_registered<D>(list: Seq<ProxyEndpointView<D>>)
    ensures
        registry_problem(list) is None <==> (forall|i: int|
            0 <= i < list.len() ==> ((#[trigger] list[i]).protocol is Trojan ==> list[i].transport
                is Tls)) && forall|i: int, j: int|
            #![trigger list[i], list[j]]
            0 <= i < j < list.len() ==> list[i].id != list[j].id,
    decreases list.len(),
{
    if list.len() > 0 {
        let front = list.drop_last();
        let e = list.last();
        law_sound_endpoints_are_registered(front);
        law_lookup_finds_by_name(front, e.id);
        let sound = (forall|i: int|
            0 <= i < list.len() ==> ((#[trigger] list[i]).protocol is Trojan ==> list[i].transport
                is Tls)) && forall|i: int, j: int|
            #![trigger list[i], list[j]]
            0 <= i < j < list.len() ==> list[i].id != list[j].id;
        if registry_problem(list) is None {
            assert forall|i: int|
                0 <= i < list.len() && (#[trigger] list[i]).protocol
                    is Trojan implies list[i].transport is Tls by {
                if i < front.len() {
                    assert(front[i] == list[i]);
                }
            }
            assert forall|i: int, j: int|
                #![trigger list[i], list[j]]
                0 <= i < j < list.len() implies list[i].id != list[j].id by {
                assert(front[i] == list[i]);
                if j < front.len() {
                    assert(front[j] == list[j]);
                }
            }
        }
        if sound {
            assert forall|i: int|
                0 <= i < front.len() && (#[trigger] front[i]).protocol
                    is Trojan implies front[i].transport is Tls by {
                assert(front[i] == list[i]);
            }
            assert forall|i: int, j: int|
                #![trigger front[i], front[j]]
                0 <= i < j < front.len() implies front[i].id != front[j].id by {
                assert(front[i] == list[i] && front[j] == list[j]);
            }
            if let Some(other) = lookup(front, e.id) {
                let k = front.index_of(other);
                assert(list[k].id == list[list.len() - 1].id);
            }
        }
    }
}

/// What an endpoint can do: a direct one carries streams and datagrams, a proxy carries
/// streams, datagrams where it has a way to, and hides them where it speaks TLS. Of an
/// endpoint that is not registered nothing is known.
pub proof fn law_capabilities_are_those_of_the_endpoint<D>(
    registry: Seq<ProxyEndpointView<D>>,
    id: Seq<char>,
    direct: Option<EndpointCapabilities>,
    proxied: Option<EndpointCapabilities>,
)
    requires
        is_capable(registry, EndpointView::Direct, direct),
        is_capable(registry, EndpointView::Proxy(id), proxied),
    ensures
        direct matches Some(c) && c.spec_tcp() && c.spec_udp() && !c.spec_encrypted(),
        match lookup(registry, id) {
            None => proxied is None,
            Some(e) => proxied matches Some(c) && c.spec_tcp() && (c.spec_udp() <==> e.datagram
                is Some) && (c.spec_encrypted() <==> e.transport is Tls),
        },
{
}

/// A stream takes the way of its endpoint and no other: it goes directly where the
/// endpoint is the direct one, and over the proxy of that name otherwise. There is no
/// way for a name that is not registered.
pub proof fn law_streams_take_the_way_of_their_endpoint<'a, D>(
    registry: &'a OutboundRegistry<D>,
    endpoint: &Endpoint,
    r: Result<TcpRoute<'a, D>, Error>,
)
    requires
        call_ensures(OutboundRegistry::<D>::tcp_route, (registry, endpoint), r),
    ensures
        r matches Ok(TcpRoute::Direct) <==> endpoint@ is Direct,
        r matches Ok(TcpRoute::Proxy(config)) ==> endpoint@ == EndpointView::Proxy(config@.id)
            && registry@.contains(config@),
        endpoint@ matches EndpointView::Proxy(id) ==> (r is Err <==> lookup(registry@, id) is None),
{
    if let EndpointView::Proxy(id) = endpoint@ {
        law_lookup_finds_by_name(registry@, id);
    }
}

/// Datagrams take the way of their endpoint and no other.
pub proof fn law_datagrams_take_the_way_of_their_endpoint<'a, D>(
    registry: &'a OutboundRegistry<D>,
    endpoint: &Endpoint,
    r: Result<DatagramRoute<'a, D>, Error>,
)
    requires
        call_ensures(OutboundRegistry::<D>::open_datagram, (registry, endpoint), r),
    ensures
        r matches Ok(DatagramRoute::Direct) <==> endpoint@ is Direct,
        endpoint@ matches EndpointView::Proxy(id) ==> match lookup(registry@, id) {
            Some(e) => match e.datagram {
                Some(d) => r matches Ok(DatagramRoute::Provider(p)) && *p == d,
                None => r matches Err(f) && f@.kind == ErrorKind::Unsupported,
            },
            None => r matches Err(f) && f@.kind == ErrorKind::NotFound,
        },
{
}

} // verus!
