use std::collections::VecDeque;
use std::sync::Arc;

use commeatus::datagram::{
    DatagramRouteSet, DatagramSend, DatagramTokenAllocator, DirectDatagramAssociation,
    ReceiveEvent, ReceiveStep, ReceiveTurn, ReceivedDatagram, RouteStep, SendStep,
    MAX_DATAGRAM_REMOTE_PEERS, MAX_DATAGRAM_ROUTES,
};
use commeatus::dispatch::{datagram_endpoint, stream_endpoint, StreamPlan};
use commeatus::dns::engine::{DnsEngine, Resolver};
use commeatus::dns::hosts::HostsTable;
use commeatus::dns::{DnsAnswer, DnsError, DnsErrorKind, DnsQuery};
use commeatus::error::{Error, ErrorKind};
use commeatus::flow::{DestinationHost, FlowId};
use commeatus::http_connect::{
    bad_gateway, bad_request, connect_response, established, forbidden, parse_authority,
    HttpInbound, HttpStep,
};
use commeatus::net::{IpAddr, SocketAddr};
use commeatus::outbound::{OutboundRegistry, ProxyEndpointConfig, TcpRoute, TransportConfig};
use commeatus::plan::{Endpoint, EndpointId, RejectReason};
use commeatus::policy::{PolicyAction, PolicyEngine};
use commeatus::protocol::{http_connect, socks5, target_authority, Handshake, HandshakeStep};
use commeatus::proxy::{resolve_target, Target};
use commeatus::runtime::Runtime;
use commeatus::socks5::association::{
    is_client_packet, ReadyEvent, UdpAssociation, UDP_CLIENT_TOKEN, UDP_CONTROL_TOKEN,
    UDP_OUTBOUND_FIRST_TOKEN,
};
use commeatus::socks5::relay::{RelayAction, RelayEvent, UdpRelay};
use commeatus::socks5::{
    connect_error_code, connect_reply, encode_reply, encode_udp_response, parse_udp_request,
    plan_connect, InboundStep, Request, Socks5Inbound, UdpClientHint,
};
use commeatus::time::{Duration, Instant};
use commeatus::transparent::relay::{
    ListenerAction, ListenerEvent, TokenEvent, TransparentRelay, INBOUND_TOKEN,
    OUTBOUND_FIRST_TOKEN,
};
use commeatus::transparent::{
    intercepted_datagram, intercepted_stream, rejection, target_from_local, target_socket_addr,
    DatagramMetadata, TransparentClients,
};
use commeatus::transport::TcpTransport;
use commeatus::trojan_datagram::TrojanDatagramProvider;

const NOW: Instant = Instant { nanos: 0 };

type Registry = OutboundRegistry<TrojanDatagramProvider>;

fn address(text: &str) -> SocketAddr {
    text.parse().unwrap()
}

fn ip_target(address: SocketAddr) -> Target {
    Target::new(DestinationHost::Ip(address.ip), address.port).unwrap()
}

fn domain_target(name: &str, port: u16) -> Target {
    Target::new(DestinationHost::Domain(name.to_owned()), port).unwrap()
}

struct NoResolver;

impl Resolver for NoResolver {
    fn resolve(&self, _query: &DnsQuery) -> Result<DnsAnswer, DnsError> {
        Err(DnsError::new(DnsErrorKind::ResolverFailure, "offline"))
    }
}

fn dns(hosts: &str) -> DnsEngine {
    DnsEngine::system(HostsTable::parse(hosts).unwrap(), vec![Arc::new(NoResolver)])
}

/// The remote ends of a simulated datagram network.
struct Network {
    sent: Vec<(SocketAddr, Vec<u8>)>,
    waiting: VecDeque<(SocketAddr, Vec<u8>)>,
}

impl Network {
    fn new() -> Self {
        Self {
            sent: Vec::new(),
            waiting: VecDeque::new(),
        }
    }

    fn send(
        &mut self,
        association: &mut DirectDatagramAssociation,
        dns: &mut DnsEngine,
        target: &Target,
        payload: &[u8],
    ) -> Result<(), Error> {
        let mut send = DatagramSend::start(target, dns, NOW)?;
        loop {
            match send.next(association) {
                SendStep::Transmit(to) => {
                    self.sent.push((to, payload.to_vec()));
                    if send.outcome(association, to, payload.len(), Ok(payload.len())) {
                        return Ok(());
                    }
                }
                SendStep::Fail(error) => return Err(error),
            }
        }
    }

    fn receive(
        &mut self,
        association: &DirectDatagramAssociation,
        buffer: &mut [u8],
    ) -> Result<Option<ReceivedDatagram>, Error> {
        let mut turn = ReceiveTurn::start(buffer.len(), true)?;
        loop {
            let next = self.waiting.pop_front();
            let event = match next {
                Some((source, payload)) => {
                    let length = payload.len().min(buffer.len());
                    buffer[..length].copy_from_slice(&payload[..length]);
                    ReceiveEvent::Datagram { source, length }
                }
                None => ReceiveEvent::Failed(Error::new(ErrorKind::WouldBlock, "nothing")),
            };
            match turn.step(association, event) {
                ReceiveStep::Read { .. } => {}
                ReceiveStep::Return(received) => return Ok(received),
                ReceiveStep::Fail(error) => return Err(error),
            }
        }
    }
}

fn round_trip(remote: SocketAddr, ping: &[u8], pong: &[u8]) {
    let mut network = Network::new();
    let mut association = DirectDatagramAssociation::new();
    let mut engine = dns("");
    network
        .send(&mut association, &mut engine, &ip_target(remote), ping)
        .unwrap();
    assert_eq!(network.sent, vec![(remote, ping.to_vec())]);
    network.waiting.push_back((remote, pong.to_vec()));

    let mut buffer = [0_u8; 64];
    let received = network.receive(&association, &mut buffer).unwrap().unwrap();
    assert_eq!(&buffer[..received.length], pong);
    assert_eq!(received.source.host, DestinationHost::Ip(remote.ip));
    assert_eq!(received.source.port, remote.port);
}

#[test]
fn direct_ipv4_round_trip_preserves_source() {
    round_trip(address("127.0.0.1:5353"), b"ping", b"pong");
}

#[test]
fn direct_ipv6_round_trip_when_loopback_is_available() {
    round_trip(address("[::1]:5353"), b"v6-ping", b"v6-pong");
}

#[test]
fn direct_domain_resolution_is_owned_by_association() {
    let mut network = Network::new();
    let mut association = DirectDatagramAssociation::new();
    let mut engine = dns("127.0.0.1 direct.test");
    let target = domain_target("direct.test", 5353);
    network
        .send(&mut association, &mut engine, &target, b"domain-route")
        .unwrap();
    assert_eq!(
        network.sent,
        vec![(address("127.0.0.1:5353"), b"domain-route".to_vec())]
    );
    assert_eq!(association.remote_peer_count(), 1);
    assert!(association.trusts(address("127.0.0.1:5353")));
}

#[test]
fn zero_length_datagram_is_valid() {
    let mut network = Network::new();
    let mut association = DirectDatagramAssociation::new();
    let remote = address("127.0.0.1:5353");
    network
        .send(&mut association, &mut dns(""), &ip_target(remote), &[])
        .unwrap();
    assert_eq!(network.sent, vec![(remote, Vec::new())]);
}

#[test]
fn unsolicited_remote_is_not_exposed() {
    let mut network = Network::new();
    let association = DirectDatagramAssociation::new();
    for port in 1..=100 {
        network.waiting.push_back((
            SocketAddr::new("127.0.0.1".parse().unwrap(), port),
            b"unsolicited".to_vec(),
        ));
    }
    let mut buffer = [0_u8; 64];
    while !network.waiting.is_empty() {
        assert!(network.receive(&association, &mut buffer).unwrap().is_none());
    }
}

#[test]
fn remote_peer_limit_is_bounded() {
    let mut network = Network::new();
    let mut association = DirectDatagramAssociation::new();
    let mut engine = dns("");
    let loopback: IpAddr = "127.0.0.1".parse().unwrap();
    for port in 10_000_u16..10_000_u16 + MAX_DATAGRAM_REMOTE_PEERS as u16 {
        let target = Target::new(DestinationHost::Ip(loopback), port).unwrap();
        network
            .send(&mut association, &mut engine, &target, b"x")
            .unwrap();
    }
    assert_eq!(association.remote_peer_count(), MAX_DATAGRAM_REMOTE_PEERS);

    let overflow = Target::new(DestinationHost::Ip(loopback), 20_000).unwrap();
    let error = network
        .send(&mut association, &mut engine, &overflow, b"x")
        .unwrap_err();
    assert_eq!(error.kind(), ErrorKind::QuotaExceeded);
}

#[test]
fn partial_sends_and_empty_buffers_are_failures() {
    let mut association = DirectDatagramAssociation::new();
    let mut send = DatagramSend::to_addresses(vec![address("127.0.0.1:1"), address("127.0.0.1:2")]);
    assert!(matches!(send.next(&association), SendStep::Transmit(a) if a.port == 1));
    assert!(!send.outcome(&mut association, address("127.0.0.1:1"), 4, Ok(3)));
    assert!(matches!(send.next(&association), SendStep::Transmit(a) if a.port == 2));
    let unreachable = Error::new(ErrorKind::NetworkUnreachable, "no route");
    assert!(!send.outcome(&mut association, address("127.0.0.1:2"), 4, Err(unreachable)));
    match send.next(&association) {
        SendStep::Fail(error) => assert_eq!(error.kind(), ErrorKind::NetworkUnreachable),
        _ => panic!("an address was tried twice"),
    }
    assert_eq!(association.remote_peer_count(), 0);
    assert_eq!(
        ReceiveTurn::start(0, false).unwrap_err().kind(),
        ErrorKind::InvalidInput
    );
}

#[test]
fn route_sets_own_their_tokens() {
    let mut tokens = DatagramTokenAllocator::new(UDP_OUTBOUND_FIRST_TOKEN);
    let mut routes: DatagramRouteSet<u8> = DatagramRouteSet::new();
    assert!(matches!(routes.route(&Endpoint::Direct), RouteStep::Open));
    let first = tokens.allocate(2).unwrap();
    assert_eq!(routes.insert(Endpoint::Direct, 7, first, 2).unwrap(), 0);
    assert!(matches!(routes.route(&Endpoint::Direct), RouteStep::Reuse(0)));
    assert_eq!(routes.owned_tokens(), vec![2, 3]);
    assert_eq!(routes.owner(3), Some(0));
    assert!(!routes.owns_token(4));
    *routes.execution_mut(0) = 9;
    assert_eq!(*routes.execution_mut(0), 9);
    for i in 1..MAX_DATAGRAM_ROUTES {
        let id = EndpointId::new(&format!("edge-{i}")).unwrap();
        let first = tokens.allocate(1).unwrap();
        routes.insert(Endpoint::Proxy(id), 0, first, 1).unwrap();
    }
    let extra = Endpoint::Proxy(EndpointId::new("one-too-many").unwrap());
    assert!(matches!(routes.route(&extra), RouteStep::Refuse(_)));
    let mut tokens = DatagramTokenAllocator::new(usize::MAX);
    assert!(tokens.allocate(1).is_err());
}

#[test]
fn udp_parser_rejects_fragmentation() {
    let packet = [0x00, 0x00, 0x01, 0x01, 127, 0, 0, 1, 0, 53];
    assert_eq!(
        parse_udp_request(&packet).unwrap_err().kind(),
        ErrorKind::Unsupported
    );
}

#[test]
fn udp_parser_preserves_domain_identity() {
    let mut packet = vec![0x00, 0x00, 0x00, 0x03, 11];
    packet.extend_from_slice(b"example.com");
    packet.extend_from_slice(&53_u16.to_be_bytes());
    packet.extend_from_slice(b"dns");
    let (target, payload) = parse_udp_request(&packet).unwrap();
    assert_eq!(
        target.host,
        DestinationHost::Domain("example.com".to_owned())
    );
    assert_eq!(target.port, 53);
    assert_eq!(payload, b"dns");
}

#[test]
fn udp_response_encodes_remote_source() {
    let source = ip_target(address("127.0.0.1:5353"));
    let response = encode_udp_response(&source, b"reply").unwrap();
    assert_eq!(&response[..4], &[0, 0, 0, 1]);
    assert_eq!(&response[4..8], &[127, 0, 0, 1]);
    assert_eq!(&response[8..10], &5353_u16.to_be_bytes());
    assert_eq!(&response[10..], b"reply");
}

#[test]
fn malformed_udp_requests_are_rejected() {
    assert_eq!(
        parse_udp_request(&[0, 0, 0]).unwrap_err().kind(),
        ErrorKind::InvalidData
    );
    assert!(parse_udp_request(&[1, 0, 0, 1, 1, 1, 1, 1, 0, 53]).is_err());
    assert!(parse_udp_request(&[0, 0, 0, 9, 1, 1, 1, 1, 0, 53]).is_err());
    assert!(parse_udp_request(&[0, 0, 0, 3, 0, 0, 53]).is_err());
    assert!(parse_udp_request(&[0, 0, 0, 1, 1, 1, 1, 1, 0, 0]).is_err());
    assert!(parse_udp_request(&[0, 0, 0, 3, 1, 0xff, 0, 53]).is_err());
}

fn runtime(action: PolicyAction) -> Runtime {
    Runtime::new(PolicyEngine::new(Vec::new(), action))
}

fn direct_runtime() -> Runtime {
    runtime(PolicyAction::Route(Endpoint::Direct))
}

/// Reads a whole SOCKS5 request of a client.
fn socks_request(bytes: &[u8]) -> (Vec<u8>, Result<Request, Error>) {
    let mut inbound = Socks5Inbound::new();
    let mut written = Vec::new();
    let mut position = 0;
    let mut wanted = 2;
    loop {
        let (send, step) = inbound.step(&bytes[position..position + wanted]);
        position += wanted;
        written.extend_from_slice(&send);
        match step {
            InboundStep::Read(count) => wanted = count,
            InboundStep::Done(request) => return (written, Ok(request)),
            InboundStep::Fail(error) => return (written, Err(error)),
        }
    }
}

fn associate() -> UdpAssociation {
    let (written, request) =
        socks_request(&[0x05, 0x01, 0x00, 0x05, 0x03, 0x00, 0x01, 0, 0, 0, 0, 0, 0]);
    assert_eq!(written, [0x05, 0x00]);
    match request.unwrap() {
        Request::UdpAssociate(hint) => {
            UdpAssociation::open(hint, address("127.0.0.1:40000"), NOW).unwrap()
        }
        Request::Connect(_) => panic!("the request was misread"),
    }
}

/// A relay whose sockets are queues.
struct RelayRun {
    routes: DatagramRouteSet<DirectDatagramAssociation>,
    network: Network,
    polls: VecDeque<Vec<ReadyEvent>>,
    control_open: bool,
    from_client: VecDeque<(SocketAddr, Vec<u8>)>,
    to_client: Vec<(SocketAddr, Vec<u8>)>,
    echo: bool,
}

impl RelayRun {
    fn new() -> Self {
        Self {
            routes: DatagramRouteSet::new(),
            network: Network::new(),
            polls: VecDeque::new(),
            control_open: true,
            from_client: VecDeque::new(),
            to_client: Vec::new(),
            echo: true,
        }
    }

    fn ready(token: usize, readable: bool) -> Vec<ReadyEvent> {
        vec![ReadyEvent {
            token,
            readable,
            writable: false,
            closed: false,
        }]
    }

    fn send(&mut self, endpoint: Endpoint, target: &Target, payload: &[u8]) -> bool {
        let route = match self.routes.route(&endpoint) {
            RouteStep::Reuse(route) => route,
            RouteStep::Open => {
                let association = DirectDatagramAssociation::new();
                self.routes
                    .insert(endpoint, association, UDP_OUTBOUND_FIRST_TOKEN, 1)
                    .unwrap()
            }
            RouteStep::Refuse(_) => return false,
        };
        let association = self.routes.execution_mut(route);
        if self
            .network
            .send(association, &mut dns(""), target, payload)
            .is_err()
        {
            return false;
        }
        if self.echo {
            let (to, _) = self.network.sent[self.network.sent.len() - 1];
            self.network.waiting.push_back((to, payload.to_vec()));
        }
        true
    }

    fn run(&mut self, runtime: &Runtime, outbounds: &Registry) -> Result<(), Error> {
        let (mut relay, mut action) = UdpRelay::start(associate(), NOW);
        loop {
            let event = match action {
                RelayAction::Poll(timeout) => {
                    assert!(!timeout.is_zero());
                    match self.polls.pop_front() {
                        Some(events) => RelayEvent::Polled(events),
                        None => {
                            self.control_open = false;
                            RelayEvent::Polled(Self::ready(UDP_CONTROL_TOKEN, true))
                        }
                    }
                }
                RelayAction::ReadControl => {
                    if self.control_open {
                        RelayEvent::ControlRead(Err(Error::new(ErrorKind::WouldBlock, "open")))
                    } else {
                        RelayEvent::ControlRead(Ok(0))
                    }
                }
                RelayAction::ReceiveClient => match self.from_client.pop_front() {
                    Some((source, packet)) => RelayEvent::ClientReceived { source, packet },
                    None => {
                        RelayEvent::ClientReadFailed(Error::new(ErrorKind::WouldBlock, "nothing"))
                    }
                },
                RelayAction::Send {
                    endpoint,
                    target,
                    payload,
                } => RelayEvent::Sent(self.send(endpoint, &target, &payload)),
                RelayAction::ReceiveRoute(token) => {
                    let route = self.routes.owner(token).unwrap();
                    let mut buffer = [0_u8; 256];
                    let association = self.routes.execution_mut(route);
                    match self.network.receive(association, &mut buffer) {
                        Ok(Some(received)) => {
                            let payload = buffer[..received.length].to_vec();
                            RelayEvent::RouteReceived { received, payload }
                        }
                        Ok(None) => RelayEvent::RouteIdle,
                        Err(error) => RelayEvent::RouteFailed(error),
                    }
                }
                RelayAction::SendClient { packet, client } => {
                    let length = packet.len();
                    self.to_client.push((client, packet));
                    RelayEvent::ClientSent(Ok(length))
                }
                RelayAction::SetWritable(_) => RelayEvent::InterestSet,
                RelayAction::Finish(result) => return result,
            };
            action = relay.step(event, runtime, outbounds, &self.routes, FlowId::new(1), NOW);
        }
    }
}

#[test]
fn udp_associate_round_trip_uses_direct_datagram_association() {
    let echo_address = address("127.0.0.1:5353");
    let client = address("127.0.0.1:41000");
    let target = ip_target(echo_address);
    let request = encode_udp_response(&target, b"udp-through-association").unwrap();
    let mut run = RelayRun::new();
    run.from_client.push_back((client, request));
    run.polls.push_back(RelayRun::ready(UDP_CLIENT_TOKEN, true));
    run.polls.push_back(RelayRun::ready(UDP_OUTBOUND_FIRST_TOKEN, true));
    assert!(run.run(&direct_runtime(), &Registry::default()).is_ok());

    assert_eq!(run.to_client.len(), 1);
    assert_eq!(run.to_client[0].0, client);
    let (source, payload) = parse_udp_request(&run.to_client[0].1).unwrap();
    assert_eq!(source.host, DestinationHost::Ip(echo_address.ip));
    assert_eq!(source.port, echo_address.port);
    assert_eq!(payload, b"udp-through-association");
}

#[test]
fn packets_of_strangers_are_dropped() {
    let request = encode_udp_response(&ip_target(address("127.0.0.1:53")), b"x").unwrap();
    let mut run = RelayRun::new();
    run.from_client.push_back((address("192.0.2.9:41000"), request.clone()));
    run.from_client.push_back((address("127.0.0.1:41000"), request.clone()));
    run.from_client.push_back((address("127.0.0.1:41001"), request));
    run.polls.push_back(RelayRun::ready(UDP_CLIENT_TOKEN, true));
    assert!(run.run(&direct_runtime(), &Registry::default()).is_ok());
    assert_eq!(run.network.sent.len(), 1);
    assert!(is_client_packet(
        address("127.0.0.1:41000"),
        "127.0.0.1".parse().unwrap(),
        None
    ));
}

#[test]
fn proxy_udp_route_never_falls_back_to_direct() {
    let proxy_id = EndpointId::new("missing-udp-proxy").unwrap();
    let runtime = runtime(PolicyAction::Route(Endpoint::Proxy(proxy_id)));
    let target = ip_target(address("127.0.0.1:5353"));
    let request = encode_udp_response(&target, b"must-not-fall-through").unwrap();
    let mut run = RelayRun::new();
    run.from_client.push_back((address("127.0.0.1:41000"), request));
    run.polls.push_back(RelayRun::ready(UDP_CLIENT_TOKEN, true));
    assert!(run.run(&runtime, &Registry::default()).is_ok());
    assert!(run.network.sent.is_empty());
    assert!(datagram_endpoint(&runtime, &Registry::default(), &target, FlowId::new(1)).is_none());
}

#[test]
fn closing_udp_control_connection_wakes_executor() {
    let mut run = RelayRun::new();
    assert!(run.run(&direct_runtime(), &Registry::default()).is_ok());
    assert!(run.network.sent.is_empty());
}

#[test]
fn closed_control_comes_before_waiting_packets() {
    let request = encode_udp_response(&ip_target(address("127.0.0.1:5353")), b"late").unwrap();
    for closed in [true, false] {
        let mut run = RelayRun::new();
        run.control_open = false;
        run.from_client.push_back((address("127.0.0.1:41000"), request.clone()));
        let mut events = RelayRun::ready(UDP_CLIENT_TOKEN, true);
        events.extend(RelayRun::ready(UDP_CONTROL_TOKEN, false));
        events.extend(RelayRun::ready(UDP_CONTROL_TOKEN, true));
        events[2].closed = closed;
        run.polls.push_back(events);
        assert!(run.run(&direct_runtime(), &Registry::default()).is_ok());
        assert_eq!(run.from_client.len(), 1);
        assert!(run.network.sent.is_empty());
    }
}

#[test]
fn replies_wait_for_the_client_in_order() {
    let mut association = associate();
    let client = address("127.0.0.1:41000");
    association.packet_sent(client, NOW);
    let blocked = || Err(Error::new(ErrorKind::WouldBlock, "full"));
    association.reply_attempted(vec![1], client, blocked(), NOW);
    association.reply_attempted(vec![2], client, blocked(), NOW);
    assert_eq!(association.interest_change(), Some(true));
    assert_eq!(association.next_pending().unwrap().0, [1]);
    assert_eq!(association.flush_attempted(Ok(1)), (true, true));
    assert_eq!(association.next_pending().unwrap().0, [2]);
    assert_eq!(association.flush_attempted(blocked()), (false, false));
    assert_eq!(association.next_pending().unwrap().0, [2]);
    assert_eq!(association.remaining(NOW), Some(Duration::from_secs(120)));
    let late = Instant {
        nanos: 120_000_000_000,
    };
    assert_eq!(association.remaining(late), None);
}

#[test]
fn foreign_client_hints_are_refused() {
    let hint = UdpClientHint {
        ip: Some("192.0.2.1".parse().unwrap()),
        port: Some(5),
    };
    let (reply, _) = UdpAssociation::open(hint, address("127.0.0.1:40000"), NOW).err().unwrap();
    assert_eq!(reply[0], 5);
    assert_ne!(reply[1], 0);
}

#[test]
fn socks_requests_are_read_and_answered() {
    let (written, request) = socks_request(b"\x05\x02\x00\x02\x05\x01\x00\x03\x09a.example\x01\xbb");
    assert_eq!(written, [5, 0]);
    match request.unwrap() {
        Request::Connect(target) => assert_eq!(target, domain_target("a.example", 443)),
        Request::UdpAssociate(_) => panic!("the request was misread"),
    }
    let (written, request) = socks_request(&[5, 1, 2]);
    assert_eq!(written, [5, 255]);
    assert!(request.is_err());
    assert!(socks_request(&[4, 1]).1.is_err());
    let (written, request) = socks_request(&[5, 1, 0, 5, 2, 0, 1, 1, 1, 1, 1, 0, 80]);
    assert_eq!(&written[..4], &[5, 0, 5, 7]);
    assert!(request.is_err());
    let (written, request) = socks_request(&[5, 1, 0, 5, 1, 0, 9]);
    assert_eq!(written, [5, 0]);
    assert_eq!(request.unwrap_err().kind(), ErrorKind::InvalidData);
    assert_eq!(
        encode_reply(0, Some(address("127.0.0.1:80"))),
        [5, 0, 0, 1, 127, 0, 0, 1, 0, 80]
    );
    assert_eq!(encode_reply(2, None), [5, 2, 0, 1, 0, 0, 0, 0, 0, 0]);
    assert_eq!(
        connect_error_code(&Error::new(ErrorKind::ConnectionRefused, "refused")),
        5
    );
    assert_eq!(connect_error_code(&Error::new(ErrorKind::Other, "other")), 1);
    let refused = Err(Error::new(ErrorKind::ConnectionRefused, "refused"));
    assert_eq!(connect_reply(&refused), [5, 5, 0, 1, 0, 0, 0, 0, 0, 0]);
    assert_eq!(connect_reply(&Ok(None)), [5, 0, 0, 1, 0, 0, 0, 0, 0, 0]);
}

#[test]
fn parses_domain_authority() {
    let target = parse_authority("Example.COM:443").unwrap();
    assert_eq!(
        target,
        Target::new(DestinationHost::Domain("example.com".to_owned()), 443).unwrap()
    );
}

#[test]
fn written_authorities_are_read_back() {
    for target in [
        domain_target("a.example", 443),
        domain_target("two words", 80),
        ip_target(address("[::1]:65535")),
    ] {
        assert_eq!(parse_authority(&target_authority(&target)).unwrap(), target);
    }
}

#[test]
fn parses_bracketed_ipv6_authority() {
    let target = parse_authority("[2001:db8::1]:8443").unwrap();
    assert_eq!(target.port, 8443);
    assert!(matches!(target.host, DestinationHost::Ip(IpAddr::V6(_))));
}

#[test]
fn rejects_ambiguous_unbracketed_ipv6() {
    assert!(parse_authority("2001:db8::1:443").is_err());
}

/// Feeds an HTTP client's bytes in pieces.
fn http_request(bytes: &[u8], piece: usize) -> Result<(Target, Vec<u8>), Error> {
    let mut inbound = HttpInbound::new();
    let mut position = 0;
    let mut step = inbound.step();
    loop {
        match step {
            HttpStep::Read(limit) => {
                let end = (position + piece.min(limit)).min(bytes.len());
                step = inbound.feed(&bytes[position..end]);
                position = end;
            }
            HttpStep::Done(target, rest) => return Ok((target, rest)),
            HttpStep::Fail(error) => return Err(error),
        }
    }
}

#[test]
fn http_connect_relays_buffered_and_live_bytes_end_to_end() {
    let bytes = b"CONNECT a.example:443 HTTP/1.1\r\nHost: a.example\r\n\r\nbuffered";
    let (target, rest) = http_request(bytes, 1024).unwrap();
    assert_eq!(target, domain_target("a.example", 443));
    assert_eq!(rest, b"buffered");
    let (target, rest) = http_request(bytes, 1).unwrap();
    assert_eq!(target, domain_target("a.example", 443));
    assert!(rest.is_empty());
    assert_eq!(
        established(),
        "HTTP/1.1 200 Connection Established\r\nProxy-Agent: Commeatus/0.1.0-alpha.1\r\n\r\n"
    );
    assert_eq!(connect_response(true), established());
    assert_eq!(connect_response(false), bad_gateway());
}

#[test]
fn requests_to_proxies_are_requests_of_clients() {
    for target in [
        domain_target("a.example", 443),
        ip_target(address("192.0.2.7:80")),
        ip_target(address("[2001:db8::5]:8443")),
    ] {
        let send = match Handshake::start(&http_connect(), &target).1 {
            HandshakeStep::Exchange { send, .. } => send,
            _ => panic!("no request"),
        };
        assert_eq!(http_request(&send, 1024).unwrap(), (target.clone(), Vec::new()));
        let (mut handshake, first) = Handshake::start(&socks5(), &target);
        match (first, handshake.step(&[5, 0])) {
            (
                HandshakeStep::Exchange { send: mut bytes, .. },
                HandshakeStep::Exchange { send, .. },
            ) => {
                bytes.extend_from_slice(&send);
                match socks_request(&bytes).1.unwrap() {
                    Request::Connect(read) => assert_eq!(read, target),
                    Request::UdpAssociate(_) => panic!("the request was misread"),
                }
            }
            _ => panic!("no request"),
        }
    }
}

#[test]
fn malformed_http_requests_fail() {
    assert_eq!(
        http_request(b"CONNECT a.example:443", 8).unwrap_err().kind(),
        ErrorKind::UnexpectedEof
    );
    assert!(http_request(b"GET / HTTP/1.1\r\n\r\n", 64).is_err());
    assert!(http_request(b"CONNECT a.example HTTP/1.1\r\n\r\n", 64).is_err());
    assert!(http_request(&[b'x'; 70_000], 4096).is_err());
    assert!(bad_request().contains(" 400 "));
    assert!(forbidden().contains(" 403 "));
    assert!(bad_gateway().contains(" 502 "));
}

#[test]
fn reject_policy_blocks_before_outbound_connect() {
    let runtime = runtime(PolicyAction::Reject(RejectReason::Policy));
    let target = ip_target(address("127.0.0.1:80"));
    assert!(matches!(
        stream_endpoint(&runtime, &target, FlowId::new(1)),
        Err(RejectReason::Policy)
    ));
    assert!(rejection(RejectReason::Policy).text().ends_with("Policy"));
    match plan_connect(&runtime, &target, FlowId::new(1)) {
        StreamPlan::Refuse(reply) => assert_eq!(reply, [5, 2, 0, 1, 0, 0, 0, 0, 0, 0]),
        StreamPlan::Open(_) => panic!("the request was let through"),
    }
    match commeatus::http_connect::plan_connect(&runtime, &target, FlowId::new(1)) {
        StreamPlan::Refuse(response) => assert_eq!(response, forbidden().as_bytes()),
        StreamPlan::Open(_) => panic!("the request was let through"),
    }
    let original = address("192.0.2.1:80");
    let error = intercepted_stream(&runtime, original, FlowId::new(1)).unwrap_err();
    assert_eq!(error.kind(), ErrorKind::PermissionDenied);
}

fn named_registry(protocol: commeatus::protocol::OutboundProtocol) -> (Registry, Runtime) {
    let id = EndpointId::new("edge").unwrap();
    let registry = Registry::new(vec![ProxyEndpointConfig {
        id: id.clone(),
        protocol,
        datagram: None,
        transport: TransportConfig::Tcp(TcpTransport::new(address("127.0.0.1:1081"))),
    }])
    .unwrap();
    (registry, runtime(PolicyAction::Route(Endpoint::Proxy(id))))
}

fn first_exchange(registry: &Registry, runtime: &Runtime, target: &Target) -> (Handshake, Vec<u8>) {
    let endpoint = stream_endpoint(runtime, target, FlowId::new(1)).unwrap();
    match registry.tcp_route(&endpoint) {
        Ok(TcpRoute::Proxy(proxy)) => match Handshake::start(&proxy.protocol, target) {
            (handshake, HandshakeStep::Exchange { send, .. }) => (handshake, send),
            _ => panic!("the proxy was not greeted"),
        },
        _ => panic!("the route does not lead to the proxy"),
    }
}

#[test]
fn socks_inbound_routes_through_named_socks_outbound_without_local_dns() {
    let (registry, runtime) = named_registry(socks5());
    let (_, request) = socks_request(b"\x05\x01\x00\x05\x01\x00\x03\x15opaque-target.invalid\x01\xbb");
    let target = match request.unwrap() {
        Request::Connect(target) => target,
        Request::UdpAssociate(_) => panic!("the request was misread"),
    };
    let (mut handshake, greeting) = first_exchange(&registry, &runtime, &target);
    assert_eq!(greeting, [5, 1, 0]);
    match handshake.step(&[5, 0]) {
        HandshakeStep::Exchange { send, .. } => {
            assert_eq!(send, b"\x05\x01\x00\x03\x15opaque-target.invalid\x01\xbb");
        }
        _ => panic!("no request went out"),
    }
}

#[test]
fn http_inbound_routes_through_named_http_outbound_without_local_dns() {
    let (registry, runtime) = named_registry(http_connect());
    let (target, _) =
        http_request(b"CONNECT opaque-target.invalid:443 HTTP/1.1\r\n\r\n", 64).unwrap();
    let (_, request) = first_exchange(&registry, &runtime, &target);
    assert_eq!(
        request,
        b"CONNECT opaque-target.invalid:443 HTTP/1.1\r\nHost: opaque-target.invalid:443\r\n\
          Proxy-Connection: Keep-Alive\r\n\r\n"
    );
}

#[test]
fn proxy_endpoint_domain_is_not_resolved_by_local_dns_before_upstream() {
    let host = DestinationHost::Domain("opaque-target.invalid".to_owned());
    assert_eq!(
        host,
        DestinationHost::Domain("opaque-target.invalid".to_owned())
    );
    let (registry, runtime) = named_registry(socks5());
    let target = Target::new(host, 443).unwrap();
    let (mut handshake, _) = first_exchange(&registry, &runtime, &target);
    match handshake.step(&[5, 0]) {
        HandshakeStep::Exchange { send, .. } => {
            assert_eq!(send, b"\x05\x01\x00\x03\x15opaque-target.invalid\x01\xbb");
        }
        _ => panic!("no request went out"),
    }
}

#[test]
fn socks5_domains_are_connected_through_the_hosts_table() {
    let (_, request) = socks_request(b"\x05\x01\x00\x05\x01\x00\x03\x12commeatus-dns.test\x00\x50");
    let target = match request.unwrap() {
        Request::Connect(target) => target,
        Request::UdpAssociate(_) => panic!("the request was misread"),
    };
    match plan_connect(&direct_runtime(), &target, FlowId::new(1)) {
        StreamPlan::Open(endpoint) => assert_eq!(endpoint, Endpoint::Direct),
        StreamPlan::Refuse(_) => panic!("the request was refused"),
    }
    let mut engine = dns("127.0.0.1 commeatus-dns.test\n");
    let addresses = resolve_target(&target, &mut engine, NOW).unwrap();
    assert_eq!(addresses, [address("127.0.0.1:80")]);
    assert_eq!(
        connect_reply(&Ok(Some(address("127.0.0.1:5000")))),
        [5, 0, 0, 1, 127, 0, 0, 1, 0x13, 0x88]
    );
}

#[test]
fn ordinary_stream_local_address_maps_to_ip_target() {
    let local = address("127.0.0.1:43210");
    let target = target_from_local(local).unwrap();
    assert_eq!(target.host, DestinationHost::Ip(local.ip));
    assert_eq!(target.port, local.port);
    assert_eq!(target_socket_addr(&target).unwrap(), local);
    assert!(target_socket_addr(&domain_target("a.example", 53)).is_err());
    assert!(target_from_local(address("127.0.0.1:0")).is_err());
}

#[test]
fn intercepted_datagrams_need_one_destination() {
    let client = Some(address("192.0.2.7:4000"));
    let datagram = intercepted_datagram(&DatagramMetadata {
        truncated: false,
        client,
        destinations: vec![address("198.51.100.1:53")],
    })
    .unwrap();
    assert_eq!(datagram.client, address("192.0.2.7:4000"));
    assert_eq!(datagram.target, ip_target(address("198.51.100.1:53")));
    assert!(intercepted_datagram(&DatagramMetadata {
        truncated: true,
        client,
        destinations: vec![address("198.51.100.1:53")],
    })
    .is_err());
    assert!(intercepted_datagram(&DatagramMetadata {
        truncated: false,
        client: None,
        destinations: vec![address("198.51.100.1:53")],
    })
    .is_err());
    assert!(intercepted_datagram(&DatagramMetadata {
        truncated: false,
        client,
        destinations: Vec::new(),
    })
    .is_err());
}

#[test]
fn the_tokens_of_a_client_grow_with_its_paths() {
    let mut clients = TransparentClients::<u8>::new();
    let client = clients.enter(address("192.0.2.7:4000"), NOW).unwrap();
    let proxy = |id: &str| Endpoint::Proxy(EndpointId::new(id).unwrap());
    assert_eq!(clients.insert_route(client, Endpoint::Direct, 1, 0, 2).unwrap(), 0);
    let refused = clients.insert_route(client, proxy("a"), 2, 1, 1).unwrap_err();
    assert_eq!(refused.text(), "datagram readiness tokens overlap");
    *clients.execution_mut(client, 0) = 5;
    assert!(clients.insert_route(client, proxy("a"), 2, 1, 1).is_err());
    assert_eq!(clients.insert_route(client, proxy("a"), 2, 2, 1).unwrap(), 1);
    assert_eq!(clients.route_of(client, 1), Some(0));
    assert_eq!(clients.route_of(client, 2), Some(1));
    assert_eq!(*clients.execution_mut(client, 0), 5);
    let other = clients.enter(address("192.0.2.8:4000"), NOW).unwrap();
    assert_eq!(clients.insert_route(other, Endpoint::Direct, 3, 0, 1).unwrap(), 0);
}

#[test]
fn transparent_replies_come_from_the_destination() {
    let client = address("192.0.2.7:4000");
    let server = address("198.51.100.1:53");
    let runtime = direct_runtime();
    let registry = Registry::default();
    let id = FlowId::new(1);
    let (mut relay, action) = TransparentRelay::<u8, SocketAddr>::start(NOW);
    assert!(matches!(action, ListenerAction::Poll(None)));
    let mut step = |event: ListenerEvent<SocketAddr>,
                    relay: &mut TransparentRelay<u8, SocketAddr>| {
        relay.step(event, &runtime, &registry, id, NOW)
    };
    let readable = |token: usize| {
        ListenerEvent::Polled(vec![TokenEvent {
            token,
            readable: true,
        }])
    };
    let action = step(readable(INBOUND_TOKEN), &mut relay);
    assert!(matches!(action, ListenerAction::ReceiveInbound));
    let action = step(
        ListenerEvent::InboundReceived {
            metadata: DatagramMetadata {
                truncated: false,
                client: Some(client),
                destinations: vec![server],
            },
            payload: b"question".to_vec(),
        },
        &mut relay,
    );
    let entry = match action {
        ListenerAction::Send {
            client,
            endpoint,
            target,
            payload,
        } => {
            assert_eq!(target, ip_target(server));
            assert_eq!(payload, b"question");
            assert!(matches!(relay.route(client, &endpoint), RouteStep::Open));
            relay
                .insert_route(client, endpoint, 1, OUTBOUND_FIRST_TOKEN, 1)
                .unwrap();
            client
        }
        _ => panic!("the datagram was not sent on"),
    };
    assert_eq!(*relay.execution_mut(entry, 0), 1);
    let action = step(ListenerEvent::Sent(true), &mut relay);
    assert!(matches!(action, ListenerAction::ReceiveInbound));
    let action = step(ListenerEvent::InboundIdle, &mut relay);
    assert!(matches!(action, ListenerAction::Poll(Some(_))));
    let action = step(readable(OUTBOUND_FIRST_TOKEN), &mut relay);
    assert!(matches!(action, ListenerAction::ReceiveRoute { route: 0, .. }));
    let action = step(
        ListenerEvent::RouteReceived {
            received: ReceivedDatagram {
                source: ip_target(server),
                length: 6,
            },
            payload: b"answer".to_vec(),
        },
        &mut relay,
    );
    assert!(matches!(action, ListenerAction::Bind(from) if from == server));
    match step(ListenerEvent::Bound(server), &mut relay) {
        ListenerAction::SendReply {
            socket,
            client: to,
            payload,
        } => {
            assert_eq!(*relay.reply_socket(socket), server);
            assert_eq!(to, client);
            assert_eq!(payload, b"answer");
        }
        _ => panic!("the reply was not sent"),
    }
    let action = step(ListenerEvent::ReplySent(Some(6)), &mut relay);
    assert!(matches!(action, ListenerAction::ReceiveRoute { .. }));
    let action = step(ListenerEvent::RouteIdle, &mut relay);
    assert!(matches!(action, ListenerAction::Poll(_)));
}
