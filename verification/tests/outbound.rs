use std::cell::Cell;

use commeatus::error::{Error, ErrorKind};
use commeatus::flow::DestinationHost;
use commeatus::net::{IpAddr, SocketAddr};
use commeatus::outbound::{
    DatagramRoute, OutboundRegistry, ProxyEndpointConfig, TcpRoute, TransportConfig,
};
use commeatus::plan::{Endpoint, EndpointId};
use commeatus::protocol;
use commeatus::protocol::{
    http_connect, parse_http_status, socks5, target_authority, trojan, Handshake, HandshakeStep,
};
use commeatus::proxy::{ConnectAttempts, ConnectStep, Target};
use commeatus::time::{Duration, Instant};
use commeatus::transport::{
    Interest, IoResult, IoStep, Pending, Readiness, Registration, RegistrationChange, RelayStep,
    TcpTransport, TlsRelay, TlsTransport, TlsWants, TransportCapabilities,
};
use commeatus::trojan::{
    encode_connect_request, encode_udp_associate_request, encode_udp_frame, parse_udp_frame,
    TrojanVerifier, TROJAN_UDP_ASSOCIATE, TROJAN_VERIFIER_BYTES,
};
use commeatus::trojan_datagram::{shown_with, SessionStep, TrojanDatagramProvider};

fn address(text: &str) -> SocketAddr {
    text.parse().unwrap()
}

fn ip_target(text: &str, port: u16) -> Target {
    Target::new(DestinationHost::Ip(text.parse::<IpAddr>().unwrap()), port).unwrap()
}

fn domain_target(name: &str, port: u16) -> Target {
    Target::new(DestinationHost::Domain(name.to_owned()), port).unwrap()
}

type Registry = OutboundRegistry<TrojanDatagramProvider>;

#[test]
fn provider_requirement_rejects_trojan_over_plain_tcp() {
    let id = EndpointId::new("trojan").unwrap();
    let result = Registry::new(vec![ProxyEndpointConfig {
        id,
        protocol: protocol::trojan_with_verifier(TrojanVerifier::new("secret").unwrap()),
        datagram: None,
        transport: TransportConfig::Tcp(TcpTransport::new(address("127.0.0.1:443"))),
    }]);
    assert!(result.is_err());
}

#[test]
fn endpoint_capability_combines_protocol_and_transport() {
    let id = EndpointId::new("edge").unwrap();
    let registry = Registry::new(vec![ProxyEndpointConfig {
        id: id.clone(),
        protocol: protocol::socks5(),
        datagram: None,
        transport: TransportConfig::Tcp(TcpTransport::new(address("127.0.0.1:1081"))),
    }])
    .unwrap();
    let capabilities = registry.capabilities(&Endpoint::Proxy(id)).unwrap();
    assert!(capabilities.supports_tcp());
    assert!(!capabilities.supports_udp());
    assert!(!capabilities.encrypted_transport());
}

#[test]
fn encrypted_endpoint_capability_comes_from_transport() {
    let id = EndpointId::new("secure").unwrap();
    let tls = TlsTransport::webpki(address("127.0.0.1:443"), "proxy.example").unwrap();
    let registry = Registry::new(vec![ProxyEndpointConfig {
        id: id.clone(),
        protocol: protocol::http_connect(),
        datagram: None,
        transport: TransportConfig::Tls(tls),
    }])
    .unwrap();
    let capabilities = registry.capabilities(&Endpoint::Proxy(id)).unwrap();
    assert!(capabilities.supports_tcp());
    assert!(!capabilities.supports_udp());
    assert!(capabilities.encrypted_transport());
}

#[test]
fn datagram_factory_opens_direct_execution() {
    let registry = Registry::default();
    assert!(matches!(
        registry.open_datagram(&Endpoint::Direct),
        Ok(DatagramRoute::Direct)
    ));
    assert_eq!(registry.len(), 0);
}

#[test]
fn datagram_factory_rejects_proxy_without_provider() {
    let id = EndpointId::new("edge").unwrap();
    let registry = Registry::new(vec![ProxyEndpointConfig {
        id: id.clone(),
        protocol: protocol::socks5(),
        datagram: None,
        transport: TransportConfig::Tcp(TcpTransport::new(address("127.0.0.1:1081"))),
    }])
    .unwrap();
    let error = registry.open_datagram(&Endpoint::Proxy(id)).err().unwrap();
    assert_eq!(error.kind(), ErrorKind::Unsupported);
    let missing = EndpointId::new("missing").unwrap();
    let error = registry.open_datagram(&Endpoint::Proxy(missing)).err().unwrap();
    assert_eq!(error.kind(), ErrorKind::NotFound);
}

struct FakeDatagramProvider {
    opens: Cell<usize>,
}

struct FakeDatagramExecution;

impl FakeDatagramExecution {
    fn readiness_source_count(&self) -> usize {
        1
    }
}

impl FakeDatagramProvider {
    fn open(&self) -> FakeDatagramExecution {
        self.opens.set(self.opens.get() + 1);
        FakeDatagramExecution
    }
}

#[test]
fn attached_datagram_provider_drives_capability_and_factory() {
    let id = EndpointId::new("udp-edge").unwrap();
    let registry = OutboundRegistry::new(vec![ProxyEndpointConfig {
        id: id.clone(),
        protocol: protocol::socks5(),
        datagram: Some(FakeDatagramProvider {
            opens: Cell::new(0),
        }),
        transport: TransportConfig::Tcp(TcpTransport::new(address("127.0.0.1:1081"))),
    }])
    .unwrap();
    let endpoint = Endpoint::Proxy(id);

    let capabilities = registry.capabilities(&endpoint).unwrap();
    assert!(capabilities.supports_tcp());
    assert!(capabilities.supports_udp());

    match registry.open_datagram(&endpoint) {
        Ok(DatagramRoute::Provider(provider)) => {
            assert_eq!(provider.opens.get(), 0);
            let execution = provider.open();
            assert_eq!(provider.opens.get(), 1);
            assert_eq!(execution.readiness_source_count(), 1);
        }
        _ => panic!("the provider was not reached"),
    }
}

#[test]
fn registries_refuse_duplicates_and_missing_endpoints() {
    let endpoint = || ProxyEndpointConfig {
        id: EndpointId::new("edge").unwrap(),
        protocol: protocol::socks5(),
        datagram: None,
        transport: TransportConfig::Tcp(TcpTransport::new(address("127.0.0.1:1081"))),
    };
    let error = Registry::new(vec![endpoint(), endpoint()]).err().unwrap();
    assert_eq!(error.kind(), ErrorKind::InvalidInput);
    let registry = Registry::new(vec![endpoint()]).unwrap();
    assert!(matches!(
        registry.tcp_route(&Endpoint::Proxy(EndpointId::new("edge").unwrap())),
        Ok(TcpRoute::Proxy(_))
    ));
    assert!(matches!(registry.tcp_route(&Endpoint::Direct), Ok(TcpRoute::Direct)));
    let missing = registry.tcp_route(&Endpoint::Proxy(EndpointId::new("other").unwrap()));
    assert_eq!(missing.err().unwrap().kind(), ErrorKind::Unsupported);
}

#[test]
fn provider_names_are_stable_native_identifiers() {
    assert_eq!(socks5().name(), "socks5");
    assert_eq!(http_connect().name(), "http-connect");
    assert_eq!(trojan("secret").unwrap().name(), "trojan");
}

#[test]
fn trojan_password_hash_matches_sha224_hex_vector() {
    let protocol = trojan("password").unwrap();
    assert_eq!(
        protocol.password_hash().unwrap(),
        b"d63dc919e201d7bc4c825630d2cf25fdc93d4b2f0d46706d29038d01"
    );
}

#[test]
fn transport_requirements_are_provider_capabilities() {
    assert!(!socks5().capabilities().requires_tls);
    assert!(!http_connect().capabilities().requires_tls);
    assert!(trojan("secret").unwrap().capabilities().requires_tls);
}

#[test]
fn authority_preserves_domain_and_brackets_ipv6() {
    assert_eq!(
        target_authority(&domain_target("example.com", 443)),
        "example.com:443"
    );
    assert_eq!(target_authority(&ip_target("::1", 443)), "[::1]:443");
    assert_eq!(target_authority(&ip_target("127.0.0.1", 80)), "127.0.0.1:80");
}

#[test]
fn verifier_matches_sha224_hex_vector_without_debug_leak() {
    let verifier = TrojanVerifier::new("password").unwrap();
    assert_eq!(
        verifier.as_bytes(),
        b"d63dc919e201d7bc4c825630d2cf25fdc93d4b2f0d46706d29038d01"
    );
    assert_eq!(verifier.debug_text(), "TrojanVerifier([REDACTED])");
}

#[test]
fn udp_associate_preface_uses_wildcard_target() {
    let verifier = TrojanVerifier::new("secret").unwrap();
    let request = encode_udp_associate_request(&verifier);
    assert_eq!(&request[..TROJAN_VERIFIER_BYTES], verifier.as_bytes());
    assert_eq!(
        &request[TROJAN_VERIFIER_BYTES..TROJAN_VERIFIER_BYTES + 2],
        b"\r\n"
    );
    assert_eq!(request[TROJAN_VERIFIER_BYTES + 2], TROJAN_UDP_ASSOCIATE);
    assert_eq!(
        &request[TROJAN_VERIFIER_BYTES + 3..],
        &[0x01, 0, 0, 0, 0, 0, 0, b'\r', b'\n']
    );
}

#[test]
fn udp_frame_parser_handles_partial_multiple_and_zero_length_frames() {
    let first = domain_target("opaque.invalid", 443);
    let second = ip_target("::1", 53);
    let first_wire = encode_udp_frame(&first, b"abc").unwrap();
    let second_wire = encode_udp_frame(&second, b"").unwrap();

    assert!(parse_udp_frame(&first_wire[..first_wire.len() - 1])
        .unwrap()
        .is_none());
    let mut joined = first_wire.clone();
    joined.extend_from_slice(&second_wire);

    let parsed = parse_udp_frame(&joined).unwrap().unwrap();
    assert_eq!(parsed.source, first);
    assert_eq!(&joined[parsed.payload.clone()], b"abc");
    assert_eq!(parsed.consumed, first_wire.len());

    let parsed_zero = parse_udp_frame(&joined[parsed.consumed..])
        .unwrap()
        .unwrap();
    assert_eq!(parsed_zero.source, second);
    assert!(parsed_zero.payload.is_empty());
    assert_eq!(parsed_zero.consumed, second_wire.len());
}

#[test]
fn udp_frame_rejects_bad_crlf_and_supports_ipv4() {
    let target = ip_target("127.0.0.1", 5353);
    let mut frame = encode_udp_frame(&target, b"payload").unwrap();
    assert_eq!(parse_udp_frame(&frame).unwrap().unwrap().source, target);
    let crlf = 1 + 4 + 2 + 2;
    frame[crlf] = b'X';
    assert_eq!(
        parse_udp_frame(&frame).unwrap_err().kind(),
        ErrorKind::InvalidData
    );
}

#[test]
fn verdicts_on_frames_are_final() {
    let mut bytes = encode_udp_frame(&ip_target("127.0.0.1", 53), b"abc").unwrap();
    let consumed = parse_udp_frame(&bytes).unwrap().unwrap().consumed;
    bytes.extend_from_slice(b"\x09more");
    let parsed = parse_udp_frame(&bytes).unwrap().unwrap();
    assert_eq!(parsed.consumed, consumed);
    assert_eq!(&bytes[parsed.payload], b"abc");
    assert!(parse_udp_frame(b"\x09").is_err());
    assert!(parse_udp_frame(b"\x09\x01\x02\x03").is_err());
}

#[test]
fn trojan_requests_are_framed_exactly() {
    let verifier = TrojanVerifier::new("secret").unwrap();
    let request = encode_connect_request(&verifier, &domain_target("a.example", 443)).unwrap();
    let mut expected = verifier.as_bytes().to_vec();
    expected.extend_from_slice(b"\r\n\x01\x03\x09a.example\x01\xbb\r\n");
    assert_eq!(request, expected);
    assert_eq!(
        encode_udp_frame(&ip_target("127.0.0.1", 53), &[0; 65536]).unwrap_err().kind(),
        ErrorKind::InvalidInput
    );
    assert_eq!(TrojanVerifier::new("").err().unwrap().kind(), ErrorKind::InvalidInput);
    assert!(TrojanVerifier::new(&"p".repeat(1024)).is_ok());
    assert!(TrojanVerifier::new(&"p".repeat(1025)).is_err());
}

fn provider() -> TrojanDatagramProvider {
    let verifier = TrojanVerifier::new("super-secret").unwrap();
    let transport = TlsTransport::webpki(address("127.0.0.1:443"), "proxy.test").unwrap();
    TrojanDatagramProvider::new(verifier, transport)
}

#[test]
fn provider_debug_does_not_expose_verifier_bytes() {
    let verifier = TrojanVerifier::new("super-secret").unwrap();
    let debug = provider().debug_text();
    let verifier_text = std::str::from_utf8(verifier.as_bytes()).unwrap();
    assert!(!debug.contains(verifier_text));
    assert!(debug.contains("[REDACTED]"));
    assert!(debug.contains(", transport: TlsTransport { "));
    assert!(debug.contains("proxy.test"));
    assert!(debug.starts_with(
        "TrojanDatagramProvider { verifier: TrojanVerifier([REDACTED]), transport: \
         TlsTransport { address: 127.0.0.1:443, server_name: DnsName(\"proxy.test\"), config: "
    ));
    assert!(debug.ends_with(", connect_timeout: 10s, handshake_timeout: 10s } }"));
    assert_eq!(
        shown_with("carrier"),
        "TrojanDatagramProvider { verifier: TrojanVerifier([REDACTED]), transport: carrier }"
    );
}

#[test]
fn queued_datagrams_follow_the_preface() {
    let mut session = provider().open();
    assert_eq!(session.readiness_source_count(), 1);
    assert_eq!(session.check_registration(&[4, 5]).unwrap_err().kind(), ErrorKind::InvalidInput);
    assert!(session.check_registration(&[4]).is_ok());
    session.registered(4);
    assert_eq!(session.token(), Some(4));
    let target = domain_target("a.example", 53);
    session.queue_datagram(&target, b"question").unwrap();
    let mut wire = Vec::new();
    while session.has_unwritten() {
        let chunk = session.unwritten().to_vec();
        let count = chunk.len().min(7);
        wire.extend_from_slice(&chunk[..count]);
        assert!(matches!(session.after_write(Ok(count)), SessionStep::Again));
    }
    let verifier = TrojanVerifier::new("super-secret").unwrap();
    let preface = encode_udp_associate_request(&verifier);
    assert_eq!(&wire[..preface.len()], &preface[..]);
    let frame = parse_udp_frame(&wire[preface.len()..]).unwrap().unwrap();
    assert_eq!(frame.source, target);
    assert_eq!(&wire[preface.len()..][frame.payload], b"question");
}

#[test]
fn received_frames_are_cut_to_the_buffer() {
    let mut session = provider().open();
    let target = ip_target("192.0.2.1", 53);
    let frame = encode_udp_frame(&target, b"answer").unwrap();
    let (head, tail) = frame.split_at(5);
    let mut buffer = [0_u8; 16];
    assert!(matches!(session.after_read(Ok(head.len()), head), SessionStep::Again));
    assert!(session.take_frame(&mut buffer).unwrap().is_none());
    assert!(matches!(session.after_read(Ok(tail.len()), tail), SessionStep::Again));
    let received = session.take_frame(&mut buffer).unwrap().unwrap();
    assert_eq!(received.source, target);
    assert_eq!(&buffer[..received.length], b"answer");
    assert!(session.take_frame(&mut buffer).unwrap().is_none());
}

#[test]
fn tcp_transport_declares_plain_reliable_stream_only() {
    let transport = TcpTransport::new(address("127.0.0.1:443"));
    assert_eq!(
        transport.capabilities(),
        TransportCapabilities {
            reliable_stream: true,
            datagram: false,
            encrypted: false,
        }
    );
}

#[test]
fn zero_timeout_is_rejected() {
    assert!(TcpTransport::with_timeouts(
        address("127.0.0.1:443"),
        Duration { nanos: 0 },
        Duration::from_secs(1),
    )
    .is_err());
    let shared = TlsTransport::webpki(address("127.0.0.1:443"), "proxy.test").unwrap();
    assert!(TlsTransport::with_timeouts(
        address("127.0.0.1:443"),
        "proxy.test",
        shared.config().clone(),
        Duration::from_secs(1),
        Duration { nanos: 0 },
    )
    .is_err());
}

#[test]
fn tls_transports_share_one_configuration() {
    let tls = TlsTransport::webpki(address("127.0.0.1:443"), "proxy.test").unwrap();
    let copy = tls.clone();
    assert!(std::sync::Arc::ptr_eq(tls.config(), copy.config()));
    assert_eq!(copy.server_name(), "proxy.test");
    assert!(tls.capabilities().encrypted);
    assert_eq!(tls.connect_timeout(), Duration::from_secs(10));
    assert!(tls.config().alpn_protocols.is_empty());
    assert!(TlsTransport::webpki(address("127.0.0.1:443"), "192.0.2.1").is_ok());
    let error = TlsTransport::webpki(address("127.0.0.1:443"), "bad name").err().unwrap();
    assert_eq!(error.kind(), ErrorKind::InvalidInput);
}

#[test]
fn socks5_handshake_reads_what_the_server_sends() {
    let (mut handshake, step) = Handshake::start(&socks5(), &domain_target("a.example", 443));
    match step {
        HandshakeStep::Exchange { send, read } => {
            assert_eq!(send, [5, 1, 0]);
            assert_eq!(read, 2);
        }
        _ => panic!("no greeting"),
    }
    match handshake.step(&[5, 0]) {
        HandshakeStep::Exchange { send, read } => {
            assert_eq!(send, b"\x05\x01\x00\x03\x09a.example\x01\xbb");
            assert_eq!(read, 4);
        }
        _ => panic!("no request"),
    }
    match handshake.step(&[5, 0, 0, 1]) {
        HandshakeStep::Exchange { send, read } => {
            assert!(send.is_empty());
            assert_eq!(read, 6);
        }
        _ => panic!("no address"),
    }
    assert!(matches!(handshake.step(&[0; 6]), HandshakeStep::Done));
}

#[test]
fn socks5_handshake_reports_refusals() {
    let (mut handshake, _) = Handshake::start(&socks5(), &ip_target("192.0.2.1", 80));
    assert!(matches!(handshake.step(&[5, 255]), HandshakeStep::Fail(_)));
    let (mut handshake, _) = Handshake::start(&socks5(), &ip_target("192.0.2.1", 80));
    handshake.step(&[5, 0]);
    assert!(matches!(handshake.step(&[5, 5, 0, 1]), HandshakeStep::Fail(_)));
}

#[test]
fn http_handshake_ends_with_the_head() {
    let (mut handshake, step) = Handshake::start(&http_connect(), &ip_target("::1", 443));
    match step {
        HandshakeStep::Exchange { send, read } => {
            let text = String::from_utf8(send).unwrap();
            assert!(text.starts_with("CONNECT [::1]:443 HTTP/1.1\r\nHost: [::1]:443\r\n"));
            assert!(text.ends_with("\r\n\r\n"));
            assert_eq!(read, 1);
        }
        _ => panic!("no request"),
    }
    let head = b"HTTP/1.1 200 Connection established\r\n\r\n";
    for byte in &head[..head.len() - 1] {
        match handshake.step(&[*byte]) {
            HandshakeStep::Exchange { send, read } => {
                assert!(send.is_empty());
                assert_eq!(read, 1);
            }
            _ => panic!("ended early"),
        }
    }
    assert!(matches!(handshake.step(b"\n"), HandshakeStep::Done));
    assert_eq!(parse_http_status(head).unwrap(), 200);
    let refused = parse_http_status(b"HTTP/1.0 407 x\r\n\r\n").unwrap_err();
    assert_eq!(refused.kind(), ErrorKind::ConnectionRefused);
    assert_eq!(
        refused.text(),
        "upstream HTTP CONNECT failed with status 407"
    );
    assert!(parse_http_status(b"HTTP/2 200\r\n\r\n").is_err());
    assert!(parse_http_status(b"\xff\xfe\r\n\r\n").is_err());
}

#[test]
fn connects_try_every_address_in_order() {
    let start = Instant { nanos: 0 };
    let late = Instant {
        nanos: 4_000_000_000,
    };
    let list = vec![address("192.0.2.1:80"), address("192.0.2.2:80")];
    let mut attempts = ConnectAttempts::new(list, start);
    match attempts.step(start) {
        ConnectStep::Try(to, left) => {
            assert_eq!(to, address("192.0.2.1:80"));
            assert_eq!(left, Duration::from_secs(10));
        }
        _ => panic!("no address was tried"),
    }
    attempts.failed(Error::new(ErrorKind::ConnectionRefused, "refused"));
    match attempts.step(late) {
        ConnectStep::Try(to, left) => {
            assert_eq!(to, address("192.0.2.2:80"));
            assert_eq!(left, Duration::from_secs(6));
        }
        _ => panic!("an address was left out"),
    }
    attempts.failed(Error::new(ErrorKind::ConnectionReset, "reset"));
    match attempts.step(late) {
        ConnectStep::Fail(error) => assert_eq!(error.kind(), ErrorKind::ConnectionReset),
        _ => panic!("an address was tried twice"),
    }
    let mut attempts = ConnectAttempts::new(vec![address("192.0.2.1:80")], start);
    let end = Instant {
        nanos: 10_000_000_000,
    };
    match attempts.step(end) {
        ConnectStep::Fail(error) => assert_eq!(error.kind(), ErrorKind::TimedOut),
        _ => panic!("an address was tried after the deadline"),
    }
}

#[test]
fn relay_finishes_when_both_sides_have_ended() {
    let idle = TlsWants {
        read: false,
        write: false,
    };
    let mut relay = TlsRelay::new();
    match relay.next(TlsWants {
        read: true,
        write: false,
    }) {
        RelayStep::Wait { interest, .. } => {
            assert!(interest.client.readable);
            assert!(interest.remote.readable);
        }
        _ => panic!("nothing to wait for"),
    }
    assert_eq!(relay.after_client_read(IoResult::Count(3), b"abc"), IoStep::Stop);
    assert_eq!(relay.upstream.remaining(), b"abc");
    relay.upstream.advance(3);
    assert_eq!(relay.after_client_read(IoResult::Count(0), b""), IoStep::Stop);
    relay.remote_event(Readiness {
        readable: true,
        writable: false,
        closed: true,
    });
    let closing = relay.close_directions();
    assert!(closing.close_notify);
    assert!(closing.shutdown_client);
    assert!(matches!(relay.next(idle), RelayStep::Finished));
}

#[test]
fn partial_writes_keep_the_rest() {
    let mut pending = Pending::new();
    pending.fill(b"hello");
    assert_eq!(pending.after_client_write(IoResult::Count(2)).unwrap(), IoStep::Again);
    assert_eq!(pending.remaining(), b"llo");
    assert_eq!(
        pending.after_client_write(IoResult::Failed(ErrorKind::WouldBlock)).unwrap(),
        IoStep::Stop
    );
    assert_eq!(
        pending.after_client_write(IoResult::Count(0)).unwrap_err().kind(),
        ErrorKind::WriteZero
    );
}

#[test]
fn registrations_follow_the_interest() {
    let both = Interest {
        readable: true,
        writable: true,
    };
    let none = Interest {
        readable: false,
        writable: false,
    };
    let mut registration = Registration::none();
    assert_eq!(registration.update(none), RegistrationChange::Keep);
    assert_eq!(registration.update(both), RegistrationChange::Register(both));
    assert_eq!(registration.update(both), RegistrationChange::Keep);
    assert_eq!(registration.update(none), RegistrationChange::Deregister);
}
