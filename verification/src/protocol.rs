//! Outbound proxy protocols: what they need of a transport, and their handshakes.
//!
//! A handshake is a dialogue over an established byte stream. The stream is
//! driven from outside; the handshake says what to send, how many bytes to read
//! next, and what the bytes that came back mean.

use crate::address;
use crate::address::AddressError;
use crate::bytes;
use crate::error;
use crate::error::{Error, ErrorKind, ErrorView};
use crate::flow::{DestinationHost, DestinationView, HostView};
use crate::net;
use crate::net::IpAddr;
use crate::proxy::Target;
use crate::text;
use crate::trojan;
use crate::trojan::TrojanVerifier;
use vstd::prelude::*;
use vstd::string::*;

verus! {

pub const MAX_HTTP_RESPONSE_HEAD: usize = 16 * 1024;

#[derive(Clone, Copy, Debug, PartialEq, Eq, Structural)]
pub struct ProtocolCapabilities {
    pub stream_connect: bool,
    pub requires_tls: bool,
}

/// A protocol that connects to targets through a proxy.
#[derive(PartialEq, Eq)]
pub enum OutboundProtocol {
    Socks5,
    HttpConnect,
    Trojan(TrojanVerifier),
}

pub type ProtocolRef = OutboundProtocol;

#[verifier::ext_equal]
pub enum ProtocolView {
    Socks5,
    HttpConnect,
    Trojan(Seq<u8>),
}

impl View for OutboundProtocol {
    type V = ProtocolView;

    open spec fn view(&self) -> ProtocolView {
        match self {
            OutboundProtocol::Socks5 => ProtocolView::Socks5,
            OutboundProtocol::HttpConnect => ProtocolView::HttpConnect,
            OutboundProtocol::Trojan(v) => ProtocolView::Trojan(v@),
        }
    }
}

impl ProtocolView {
    pub open spec fn name(self) -> Seq<char> {
        match self {
            ProtocolView::Socks5 => "socks5"@,
            ProtocolView::HttpConnect => "http-connect"@,
            ProtocolView::Trojan(_) => "trojan"@,
        }
    }

    /// All protocols connect streams; Trojan leaves confidentiality to TLS.
    pub open spec fn capabilities(self) -> ProtocolCapabilities {
        ProtocolCapabilities { stream_connect: true, requires_tls: self is Trojan }
    }
}

pub fn socks5() -> (r: OutboundProtocol)
    ensures
        r@ == ProtocolView::Socks5,
{
    OutboundProtocol::Socks5
}

pub fn http_connect() -> (r: OutboundProtocol)
    ensures
        r@ == ProtocolView::HttpConnect,
{
    OutboundProtocol::HttpConnect
}

pub fn trojan(password: &str) -> (r: Result<OutboundProtocol, Error>)
    ensures
        match r {
            Ok(p) => trojan::is_password(password@) && p@ == ProtocolView::Trojan(
                trojan::verifier_of(password@),
            ),
            Err(e) => !trojan::is_password(password@) && e@ == trojan::password_failure(),
        },
{
    match TrojanVerifier::new(password) {
        Ok(credential) => Ok(OutboundProtocol::Trojan(credential)),
        Err(e) => Err(e),
    }
}

pub fn trojan_with_verifier(credential: TrojanVerifier) -> (r: OutboundProtocol)
    ensures
        r@ == ProtocolView::Trojan(credential@),
{
    OutboundProtocol::Trojan(credential)
}

impl OutboundProtocol {
    /// A stable native identifier.
    pub fn name(&self) -> (r: &'static str)
        ensures
            r@ == self@.name(),
    {
        match self {
            OutboundProtocol::Socks5 => "socks5",
            OutboundProtocol::HttpConnect => "http-connect",
            OutboundProtocol::Trojan(_) => "trojan",
        }
    }

    pub fn capabilities(&self) -> (r: ProtocolCapabilities)
        ensures
            r == self@.capabilities(),
    {
        match self {
            OutboundProtocol::Trojan(_) => ProtocolCapabilities {
                stream_connect: true,
                requires_tls: true,
            },
            _ => ProtocolCapabilities { stream_connect: true, requires_tls: false },
        }
    }

    /// The hash that a Trojan proxy knows its client by.
    pub fn password_hash(&self) -> (r: Option<&[u8]>)
        ensures
            match r {
                Some(h) => self@ == ProtocolView::Trojan(h@),
                None => !(self@ is Trojan),
            },
    {
        match self {
            OutboundProtocol::Trojan(v) => Some(v.as_bytes()),
            _ => None,
        }
    }
}

/// `host:port`, with an IPv6 address in brackets and a domain as it is.
pub open spec fn authority(target: DestinationView) -> Seq<char> {
    (match target.host {
        HostView::Ip(IpAddr::V4(a)) => net::ipv4_text(a),
        HostView::Ip(IpAddr::V6(a)) => "["@ + net::ipv6_text(a) + "]"@,
        HostView::Domain(d) => d,
    }) + ":"@ + text::decimal(target.port as nat)
}

pub fn target_authority(target: &Target) -> (r: String)
    ensures
        r@ == authority(target@),
{
    let mut out = String::new();
    match &target.host {
        DestinationHost::Ip(a) => {
            let shown = a.text();
            if a.is_ipv4() {
                out.append(shown.as_str());
            } else {
                out.append("[");
                out.append(shown.as_str());
                out.append("]");
            }
        },
        DestinationHost::Domain(d) => out.append(d.as_str()),
    }
    out.append(":");
    text::push_decimal(&mut out, target.port as u64);
    assert(out@ =~= authority(target@));
    out
}

pub open spec fn socks_address_failure(e: AddressError) -> ErrorView {
    match e {
        AddressError::TooLong => error::failure(
            ErrorKind::InvalidInput,
            "SOCKS5 domain is too long"@,
        ),
        AddressError::Empty => error::failure(
            ErrorKind::InvalidInput,
            "SOCKS5 domain must not be empty"@,
        ),
    }
}

/// A target in SOCKS5 notation: the host, then the port.
pub open spec fn socks_target(target: DestinationView) -> Result<Seq<u8>, ErrorView> {
    match address::encoded_host(target.host) {
        Ok(b) => Ok(b + bytes::be_bytes(target.port as nat, 2)),
        Err(e) => Err(socks_address_failure(e)),
    }
}

/// Appends a target in SOCKS5 notation.
pub fn encode_socks_target(out: &mut Vec<u8>, target: &Target) -> (r: Result<(), Error>)
    ensures
        match r {
            Ok(_) => socks_target(target@) matches Ok(b) && final(out)@ == old(out)@ + b,
            Err(e) => socks_target(target@) == Err::<Seq<u8>, ErrorView>(e@) && final(out)@ == old(
                out,
            )@,
        },
{
    match address::encode_host(out, &target.host) {
        Ok(_) => {
            bytes::push_be(out, target.port as u128, 2);
            assert(out@ == old(out)@ + socks_target(target@)->Ok_0);
            Ok(())
        },
        Err(AddressError::TooLong) => Err(
            Error::new(ErrorKind::InvalidInput, "SOCKS5 domain is too long"),
        ),
        Err(AddressError::Empty) => Err(
            Error::new(ErrorKind::InvalidInput, "SOCKS5 domain must not be empty"),
        ),
    }
}

/// What a handshake does next: write bytes and read exactly so many, or end.
#[derive(Debug)]
pub enum HandshakeStep {
    Exchange { send: Vec<u8>, read: usize },
    Done,
    Fail(Error),
}

#[verifier::ext_equal]
pub enum StepView {
    Exchange { send: Seq<u8>, read: nat },
    Done,
    Fail(ErrorView),
}

impl View for HandshakeStep {
    type V = StepView;

    open spec fn view(&self) -> StepView {
        match self {
            HandshakeStep::Exchange { send, read } => StepView::Exchange {
                send: send@,
                read: *read as nat,
            },
            HandshakeStep::Done => StepView::Done,
            HandshakeStep::Fail(e) => StepView::Fail(e@),
        }
    }
}

/// Where a handshake stands.
#[derive(Debug)]
pub enum HandshakeState {
    Start,
    SocksMethod,
    SocksReply,
    SocksDomainLength,
    SocksAddress,
    HttpHead(Vec<u8>),
    TrojanSent,
    Over,
}

#[verifier::ext_equal]
pub enum StateView {
    Start,
    SocksMethod,
    SocksReply,
    SocksDomainLength,
    SocksAddress,
    HttpHead(Seq<u8>),
    TrojanSent,
    Over,
}

impl View for HandshakeState {
    type V = StateView;

    open spec fn view(&self) -> StateView {
        match self {
            HandshakeState::Start => StateView::Start,
            HandshakeState::SocksMethod => StateView::SocksMethod,
            HandshakeState::SocksReply => StateView::SocksReply,
            HandshakeState::SocksDomainLength => StateView::SocksDomainLength,
            HandshakeState::SocksAddress => StateView::SocksAddress,
            HandshakeState::HttpHead(h) => StateView::HttpHead(h@),
            HandshakeState::TrojanSent => StateView::TrojanSent,
            HandshakeState::Over => StateView::Over,
        }
    }
}

impl StateView {
    /// How many bytes the state waits for, where that is fixed.
    pub open spec fn expects(self, n: nat) -> bool {
        match self {
            StateView::SocksMethod => n == 2,
            StateView::SocksReply => n == 4,
            StateView::SocksDomainLength => n == 1,
            StateView::HttpHead(_) => n == 1,
            _ => true,
        }
    }
}

pub open spec fn ended(e: ErrorView) -> (StateView, StepView) {
    (StateView::Over, StepView::Fail(e))
}

pub open spec fn asked(state: StateView, send: Seq<u8>, read: nat) -> (StateView, StepView) {
    (state, StepView::Exchange { send, read })
}

pub open spec fn http_request(target: DestinationView) -> Seq<char> {
    "CONNECT "@ + authority(target) + " HTTP/1.1\r\nHost: "@ + authority(target)
        + "\r\nProxy-Connection: Keep-Alive\r\n\r\n"@
}

/// How a handshake begins.
pub open spec fn first_step(protocol: ProtocolView, target: DestinationView) -> (
    StateView,
    StepView,
) {
    match protocol {
        ProtocolView::Socks5 => asked(StateView::SocksMethod, seq![5u8, 1, 0], 2),
        ProtocolView::HttpConnect => asked(
            StateView::HttpHead(Seq::empty()),
            vstd::utf8::encode_utf8(http_request(target)),
            1,
        ),
        ProtocolView::Trojan(hash) => match socks_target(target) {
            Err(e) => ended(e),
            Ok(b) => asked(
                StateView::TrojanSent,
                hash + seq![13u8, 10, 1] + b + seq![13u8, 10],
                0,
            ),
        },
    }
}

/// The reply to the offer of methods: only "no authentication" will do.
pub open spec fn after_method(target: DestinationView, input: Seq<u8>) -> (StateView, StepView) {
    if input != seq![5u8, 0] {
        ended(
            error::failure(
                ErrorKind::PermissionDenied,
                "upstream SOCKS5 proxy did not accept no-auth"@,
            ),
        )
    } else {
        match socks_target(target) {
            Err(e) => ended(e),
            Ok(b) => asked(StateView::SocksReply, seq![5u8, 1, 0] + b, 4),
        }
    }
}

/// The reply to the request; the bound address that follows is read and dropped.
pub open spec fn after_reply(input: Seq<u8>) -> (StateView, StepView) {
    if input[0] != 5 || input[2] != 0 {
        ended(error::failure(ErrorKind::InvalidData, "invalid upstream SOCKS5 CONNECT reply"@))
    } else if input[1] != 0 {
        ended(
            error::failure(
                ErrorKind::ConnectionRefused,
                "upstream SOCKS5 CONNECT failed with reply code "@ + text::decimal(
                    input[1] as nat,
                ),
            ),
        )
    } else if input[3] == 1 {
        asked(StateView::SocksAddress, Seq::empty(), 6)
    } else if input[3] == 3 {
        asked(StateView::SocksDomainLength, Seq::empty(), 1)
    } else if input[3] == 4 {
        asked(StateView::SocksAddress, Seq::empty(), 18)
    } else {
        ended(
            error::failure(
                ErrorKind::InvalidData,
                "unsupported upstream SOCKS5 bound address type"@,
            ),
        )
    }
}

pub open spec fn ends_with_blank_line(head: Seq<u8>) -> bool {
    let n = head.len() as int;
    n >= 4 && head[n - 4] == 13 && head[n - 3] == 10 && head[n - 2] == 13 && head[n - 1] == 10
}

/// The status of a response that is a success, or why it is not.
pub open spec fn http_status(head: Seq<u8>) -> Result<nat, ErrorView> {
    if !vstd::utf8::valid_utf8(head) {
        Err(
            error::failure(
                ErrorKind::InvalidData,
                "upstream HTTP CONNECT response is not UTF-8"@,
            ),
        )
    } else {
        let lines = text::lines(vstd::utf8::decode_utf8(head));
        if lines.len() == 0 {
            Err(
                error::failure(
                    ErrorKind::InvalidData,
                    "upstream HTTP CONNECT response has no status line"@,
                ),
            )
        } else {
            let f = text::fields(lines[0]);
            if f.len() < 1 || !text::starts_with(f[0], "HTTP/1."@) {
                Err(
                    error::failure(
                        ErrorKind::InvalidData,
                        "upstream HTTP CONNECT response is not HTTP/1.x"@,
                    ),
                )
            } else if f.len() < 2 || text::number(f[1], 65535) is None {
                Err(
                    error::failure(
                        ErrorKind::InvalidData,
                        "upstream HTTP CONNECT status is invalid"@,
                    ),
                )
            } else {
                let status = text::number(f[1], 65535).unwrap();
                if 200 <= status < 300 {
                    Ok(status)
                } else {
                    Err(
                        error::failure(
                            ErrorKind::ConnectionRefused,
                            "upstream HTTP CONNECT failed with status "@ + text::decimal(status),
                        ),
                    )
                }
            }
        }
    }
}

/// The head of the response is read byte by byte until a blank line ends it.
pub open spec fn after_head(head: Seq<u8>) -> (StateView, StepView) {
    if ends_with_blank_line(head) {
        match http_status(head) {
            Ok(_) => (StateView::Over, StepView::Done),
            Err(e) => ended(e),
        }
    } else if head.len() >= 16384 {
        ended(
            error::failure(
                ErrorKind::InvalidData,
                "upstream HTTP CONNECT response header is too large"@,
            ),
        )
    } else {
        asked(StateView::HttpHead(head), Seq::empty(), 1)
    }
}

/// What the bytes that were read lead to.
pub open spec fn next_step(state: StateView, target: DestinationView, input: Seq<u8>) -> (
    StateView,
    StepView,
) {
    match state {
        StateView::SocksMethod => after_method(target, input),
        StateView::SocksReply => after_reply(input),
        StateView::SocksDomainLength => asked(
            StateView::SocksAddress,
            Seq::empty(),
            (input[0] + 2) as nat,
        ),
        StateView::HttpHead(head) => after_head(head + input),
        _ => (StateView::Over, StepView::Done),
    }
}

fn exchange(send: Vec<u8>, read: usize) -> (r: HandshakeStep)
    ensures
        r@ == (StepView::Exchange { send: send@, read: read as nat }),
{
    HandshakeStep::Exchange { send, read }
}

/// A dialogue with a proxy about one target.
pub struct Handshake {
    protocol: OutboundProtocol,
    target: Target,
    state: HandshakeState,
}

#[verifier::ext_equal]
pub struct HandshakeView {
    pub protocol: ProtocolView,
    pub target: DestinationView,
    pub state: StateView,
}

impl View for Handshake {
    type V = HandshakeView;

    closed spec fn view(&self) -> HandshakeView {
        HandshakeView {
            protocol: self.protocol@,
            target: self.target@,
            state: self.state@,
        }
    }
}

impl Handshake {
    /// Begins the dialogue.
    pub fn start(protocol: &OutboundProtocol, target: &Target) -> (r: (Handshake, HandshakeStep))
        ensures
            r.0@ == (HandshakeView {
                protocol: protocol@,
                target: target@,
                state: first_step(protocol@, target@).0,
            }),
            r.1@ == first_step(protocol@, target@).1,
    {
        match protocol {
            OutboundProtocol::Socks5 => {
                let mut send: Vec<u8> = Vec::new();
                send.push(5u8);
                send.push(1u8);
                send.push(0u8);
                assert(send@ =~= seq![5u8, 1, 0]);
                (
                    Handshake {
                        protocol: OutboundProtocol::Socks5,
                        target: target.clone(),
                        state: HandshakeState::SocksMethod,
                    },
                    exchange(send, 2),
                )
            },
            OutboundProtocol::HttpConnect => {
                let host = target_authority(target);
                let mut text = "CONNECT ".to_owned();
                text.append(host.as_str());
                text.append(" HTTP/1.1\r\nHost: ");
                text.append(host.as_str());
                text.append("\r\nProxy-Connection: Keep-Alive\r\n\r\n");
                assert(text@ =~= http_request(target@));
                let head: Vec<u8> = Vec::new();
                assert(head@ =~= Seq::<u8>::empty());
                (
                    Handshake {
                        protocol: OutboundProtocol::HttpConnect,
                        target: target.clone(),
                        state: HandshakeState::HttpHead(head),
                    },
                    exchange(bytes::to_bytes(text.as_str().as_bytes()), 1),
                )
            },
            OutboundProtocol::Trojan(credential) => {
                let mut send: Vec<u8> = Vec::new();
                bytes::push_all(&mut send, credential.as_bytes());
                send.push(13u8);
                send.push(10u8);
                send.push(trojan::TROJAN_CONNECT);
                match encode_socks_target(&mut send, target) {
                    Err(e) => (
                        Handshake {
                            protocol: OutboundProtocol::Trojan(credential.clone()),
                            target: target.clone(),
                            state: HandshakeState::Over,
                        },
                        HandshakeStep::Fail(e),
                    ),
                    Ok(_) => {
                        send.push(13u8);
                        send.push(10u8);
                        assert(send@ =~= credential@ + seq![13u8, 10, 1] + socks_target(
                            target@,
                        )->Ok_0 + seq![13u8, 10]);
                        (
                            Handshake {
                                protocol: OutboundProtocol::Trojan(credential.clone()),
                                target: target.clone(),
                                state: HandshakeState::TrojanSent,
                            },
                            exchange(send, 0),
                        )
                    },
                }
            },
        }
    }

    fn method_reply(&mut self, input: &[u8]) -> (r: HandshakeStep)
        requires
            input@.len() == 2,
        ensures
            final(self)@ == (HandshakeView {
                state: after_method(old(self)@.target, input@).0,
                ..old(self)@
            }),
            r@ == after_method(old(self)@.target, input@).1,
    {
        if input[0] != 5 || input[1] != 0 {
            self.state = HandshakeState::Over;
            assert(input@ != seq![5u8, 0]);
            return HandshakeStep::Fail(
                Error::new(
                    ErrorKind::PermissionDenied,
                    "upstream SOCKS5 proxy did not accept no-auth",
                ),
            );
        }
        assert(input@ =~= seq![5u8, 0]);
        let mut send: Vec<u8> = Vec::new();
        send.push(5u8);
        send.push(1u8);
        send.push(0u8);
        match encode_socks_target(&mut send, &self.target) {
            Err(e) => {
                self.state = HandshakeState::Over;
                HandshakeStep::Fail(e)
            },
            Ok(_) => {
                self.state = HandshakeState::SocksReply;
                assert(send@ =~= seq![5u8, 1, 0] + socks_target(self.target@)->Ok_0);
                exchange(send, 4)
            },
        }
    }

    fn connect_reply(&mut self, input: &[u8]) -> (r: HandshakeStep)
        requires
            input@.len() == 4,
        ensures
            final(self)@ == (HandshakeView { state: after_reply(input@).0, ..old(self)@ }),
            r@ == after_reply(input@).1,
    {
        self.state = HandshakeState::Over;
        if input[0] != 5 || input[2] != 0 {
            return HandshakeStep::Fail(
                Error::new(ErrorKind::InvalidData, "invalid upstream SOCKS5 CONNECT reply"),
            );
        }
        if input[1] != 0 {
            let mut text = "upstream SOCKS5 CONNECT failed with reply code ".to_owned();
            text::push_decimal(&mut text, input[1] as u64);
            return HandshakeStep::Fail(Error::new(ErrorKind::ConnectionRefused, text.as_str()));
        }
        let none: Vec<u8> = Vec::new();
        assert(none@ =~= Seq::<u8>::empty());
        if input[3] == 1 {
            self.state = HandshakeState::SocksAddress;
            return exchange(none, 6);
        }
        if input[3] == 3 {
            self.state = HandshakeState::SocksDomainLength;
            return exchange(none, 1);
        }
        if input[3] == 4 {
            self.state = HandshakeState::SocksAddress;
            return exchange(none, 18);
        }
        HandshakeStep::Fail(
            Error::new(
                ErrorKind::InvalidData,
                "unsupported upstream SOCKS5 bound address type",
            ),
        )
    }

    /// Takes in the bytes that were read and says what to do next.
    pub fn step(&mut self, input: &[u8]) -> (r: HandshakeStep)
        requires
            old(self)@.state.expects(input@.len()),
        ensures
            final(self)@ == (HandshakeView {
                state: next_step(old(self)@.state, old(self)@.target, input@).0,
                ..old(self)@
            }),
            r@ == next_step(old(self)@.state, old(self)@.target, input@).1,
    {
        let none: Vec<u8> = Vec::new();
        assert(none@ =~= Seq::<u8>::empty());
        let mut state = HandshakeState::Over;
        std::mem::swap(&mut state, &mut self.state);
        match state {
            HandshakeState::SocksMethod => self.method_reply(input),
            HandshakeState::SocksReply => self.connect_reply(input),
            HandshakeState::SocksDomainLength => {
                self.state = HandshakeState::SocksAddress;
                exchange(none, input[0] as usize + 2)
            },
            HandshakeState::HttpHead(head) => {
                let mut all = head;
                all.push(input[0]);
                assert(all@ =~= old(self)@.state->HttpHead_0 + input@);
                let n: usize = all.len();
                if n >= 4 && all[n - 4] == 13 && all[n - 3] == 10 && all[n - 2] == 13 && all[n - 1]
                    == 10 {
                    return match parse_http_status(all.as_slice()) {
                        Ok(_) => HandshakeStep::Done,
                        Err(e) => HandshakeStep::Fail(e),
                    };
                }
                if n >= MAX_HTTP_RESPONSE_HEAD {
                    return HandshakeStep::Fail(
                        Error::new(
                            ErrorKind::InvalidData,
                            "upstream HTTP CONNECT response header is too large",
                        ),
                    );
                }
                self.state = HandshakeState::HttpHead(all);
                exchange(none, 1)
            },
            _ => HandshakeStep::Done,
        }
    }
}

fn invalid(message: &str) -> (r: Error)
    ensures
        r@ == error::failure(ErrorKind::InvalidData, message@),
{
    Error::new(ErrorKind::InvalidData, message)
}

/// Reads the head of a response to HTTP CONNECT.
pub fn parse_http_status(head: &[u8]) -> (r: Result<u16, Error>)
    ensures
        match r {
            Ok(status) => http_status(head@) == Ok::<nat, ErrorView>(status as nat),
            Err(e) => http_status(head@) == Err::<nat, ErrorView>(e@),
        },
{
    let shown = match text::utf8_text(head) {
        Some(s) => s,
        None => {
            return Err(invalid("upstream HTTP CONNECT response is not UTF-8"));
        },
    };
    let chars = text::chars_of(shown);
    let lines = text::lines_of(chars.as_slice());
    let ghost l = text::texts(lines@);
    if lines.len() == 0 {
        return Err(invalid("upstream HTTP CONNECT response has no status line"));
    }
    assert(l[0] == lines@[0]@);
    let fields = text::fields_of(lines[0]);
    let ghost f = text::texts(fields@);
    if fields.len() < 1 {
        return Err(invalid("upstream HTTP CONNECT response is not HTTP/1.x"));
    }
    assert(f[0] == fields@[0]@);
    if !text::starts_with_of(fields[0], "HTTP/1.") {
        return Err(invalid("upstream HTTP CONNECT response is not HTTP/1.x"));
    }
    if fields.len() < 2 {
        return Err(invalid("upstream HTTP CONNECT status is invalid"));
    }
    assert(f[1] == fields@[1]@);
    match text::number_of(fields[1], 65535) {
        None => Err(invalid("upstream HTTP CONNECT status is invalid")),
        Some(status) => {
            if 200 <= status && status < 300 {
                return Ok(status as u16);
            }
            let mut text = "upstream HTTP CONNECT failed with status ".to_owned();
            text::push_decimal(&mut text, status);
            Err(Error::new(ErrorKind::ConnectionRefused, text.as_str()))
        },
    }
}

/// A domain reaches the proxy as it is: the bytes that carry it are its own, and
/// nothing is resolved on the way.
pub proof fn law_domain_identity_reaches_the_proxy(domain: Seq<char>, port: u16)
    requires
        1 <= text::byte_len(domain) <= 255,
    ensures
        ({
            let t = DestinationView { host: HostView::Domain(domain), port };
            let b = vstd::utf8::encode_utf8(domain);
            &&& socks_target(t) == Ok::<Seq<u8>, ErrorView>(
                seq![3u8, b.len() as u8] + b + bytes::be_bytes(port as nat, 2),
            )
            &&& authority(t) == domain + ":"@ + text::decimal(port as nat)
        }),
{
}

/// A Trojan handshake is one connect request: the proxy is sent that and nothing else,
/// and the stream is open without an answer.
pub proof fn law_trojan_handshake_is_a_connect_request(
    hash: Seq<u8>,
    target: DestinationView,
    input: Seq<u8>,
)
    ensures
        ({
            let (state, step) = first_step(ProtocolView::Trojan(hash), target);
            match trojan::connect_request(hash, target) {
                Ok(b) => step == (StepView::Exchange { send: b, read: 0 }) && next_step(
                    state,
                    target,
                    input,
                ).1 == StepView::Done,
                Err(_) => step is Fail,
            }
        }),
{
}

/// Only a proxy that takes the offered method is sent a request; any other answer ends
/// the handshake.
pub proof fn law_only_the_offered_method_goes_on(target: DestinationView, input: Seq<u8>)
    requires
        input.len() == 2,
    ensures
        first_step(ProtocolView::Socks5, target) == (
            StateView::SocksMethod,
            StepView::Exchange { send: seq![5u8, 1, 0], read: 2 },
        ),
        ({
            let (state, step) = next_step(StateView::SocksMethod, target, input);
            &&& step is Exchange <==> input[0] == 5 && input[1] == 0 && address::encoded_host(
                target.host,
            ) is Ok
            &&& !(step is Exchange) ==> step is Fail && state == StateView::Over
            &&& input[0] == 5 && input[1] != 0 ==> step->Fail_0.kind == ErrorKind::PermissionDenied
        }),
{
    if input[0] == 5 && input[1] == 0 {
        assert(input =~= seq![5u8, 0]);
    }
}

/// A SOCKS5 stream is open once the proxy has reported success and all of its answer
/// has been read: the rest of the answer is an address of the announced kind and a
/// port. Whatever else it reports, the handshake fails.
pub proof fn law_socks_success_is_read_to_the_end(
    target: DestinationView,
    input: Seq<u8>,
    length: u8,
    rest: Seq<u8>,
)
    requires
        input.len() == 4,
    ensures
        ({
            let (state, step) = next_step(StateView::SocksReply, target, input);
            &&& !(step is Done)
            &&& step is Exchange <==> input[0] == 5 && input[1] == 0 && input[2] == 0 && (input[3]
                == 1 || input[3] == 3 || input[3] == 4)
            &&& input[0] == 5 && input[2] == 0 && input[1] != 0 ==> step->Fail_0.kind
                == ErrorKind::ConnectionRefused
            &&& step is Exchange ==> step->send.len() == 0 && if input[3] == 1 {
                state == StateView::SocksAddress && step->read == 4 + 2
            } else if input[3] == 4 {
                state == StateView::SocksAddress && step->read == 16 + 2
            } else {
                state == StateView::SocksDomainLength && step->read == 1
            }
        }),
        next_step(StateView::SocksDomainLength, target, seq![length]) == (
            StateView::SocksAddress,
            StepView::Exchange { send: Seq::<u8>::empty(), read: (length + 2) as nat },
        ),
        next_step(StateView::SocksAddress, target, rest).1 == StepView::Done,
{
}

/// The response to HTTP CONNECT is read one byte after the other up to its blank line
/// and no further, and nothing more is sent.
pub proof fn law_response_head_is_read_to_its_blank_line(
    target: DestinationView,
    head: Seq<u8>,
    byte: u8,
)
    ensures
        first_step(ProtocolView::HttpConnect, target).0 == StateView::HttpHead(Seq::empty()),
        ({
            let all = head.push(byte);
            let (state, step) = next_step(StateView::HttpHead(head), target, seq![byte]);
            if all.len() >= 4 && all.skip(all.len() - 4) == seq![13u8, 10, 13, 10] {
                !(step is Exchange)
            } else if all.len() < 16384 {
                &&& state == StateView::HttpHead(all)
                &&& step == (StepView::Exchange { send: Seq::<u8>::empty(), read: 1 })
            } else {
                step is Fail
            }
        }),
{
    let all = head.push(byte);
    assert(head + seq![byte] =~= all);
    let n = all.len() as int;
    if n >= 4 {
        let end = all.skip(n - 4);
        assert(end[0] == all[n - 4] && end[1] == all[n - 3]);
        assert(end[2] == all[n - 2] && end[3] == all[n - 1]);
        if ends_with_blank_line(all) {
            assert(end =~= seq![13u8, 10, 13, 10]);
        }
    }
}

/// A Trojan password has 1 to 1024 bytes, and is known by the hash of its bytes.
pub proof fn law_trojan_passwords_are_bounded(password: &str, r: Result<OutboundProtocol, Error>)
    requires
        call_ensures(trojan, (password,), r),
    ensures
        r is Ok <==> 1 <= vstd::utf8::encode_utf8(password@).len() <= 1024,
        r matches Ok(p) ==> p@ == ProtocolView::Trojan(
            trojan::hex(trojan::sha224(vstd::utf8::encode_utf8(password@))),
        ),
        r matches Err(e) ==> e@.kind == ErrorKind::InvalidInput,
{
}

} // verus!
