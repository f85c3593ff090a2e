//! SOCKS5 for clients: the negotiation of a request, and the wrapping of datagrams.

use crate::address;
use crate::address::AddressError;
use crate::bytes;
use crate::dispatch;
use crate::dispatch::StreamPlan;
use crate::error;
use crate::error::{Error, ErrorKind, ErrorView};
use crate::flow::{DestinationHost, DestinationView, FlowId, HostView, TransportProtocol};
use crate::net::{IpAddr, SocketAddr};
use crate::policy::EngineView;
use crate::protocol;
use crate::protocol::{ProtocolView, StepView};
use crate::proxy;
use crate::proxy::Target;
use crate::runtime::Runtime;
use crate::text;
use crate::text::Class;
use vstd::prelude::*;
use vstd::string::*;

pub mod association;
pub mod relay;

verus! {

pub const VERSION: u8 = 0x05;

pub const METHOD_NO_AUTH: u8 = 0x00;

pub const METHOD_UNACCEPTABLE: u8 = 0xff;

pub const COMMAND_CONNECT: u8 = 0x01;

pub const COMMAND_UDP_ASSOCIATE: u8 = 0x03;

pub const HANDSHAKE_TIMEOUT_SECS: u64 = 10;

pub open spec fn malformed(message: Seq<char>) -> ErrorView {
    error::failure(ErrorKind::InvalidData, message)
}

fn invalid_data(message: &str) -> (r: Error)
    ensures
        r@ == malformed(message@),
{
    Error::new(ErrorKind::InvalidData, message)
}

/// Where a client says that its datagrams will come from.
#[derive(Clone, Copy, Debug, PartialEq, Eq, Structural)]
pub struct UdpClientHint {
    pub ip: Option<IpAddr>,
    pub port: Option<u16>,
}

#[derive(Debug, PartialEq, Eq)]
pub enum Request {
    Connect(Target),
    UdpAssociate(UdpClientHint),
}

#[verifier::ext_equal]
pub enum RequestView {
    Connect(DestinationView),
    UdpAssociate(UdpClientHint),
}

impl View for Request {
    type V = RequestView;

    open spec fn view(&self) -> RequestView {
        match self {
            Request::Connect(t) => RequestView::Connect(t@),
            Request::UdpAssociate(h) => RequestView::UdpAssociate(*h),
        }
    }
}

/// A domain on the wire: in lower case and without dots behind it.
pub open spec fn wire_domain(b: Seq<u8>) -> Seq<char> {
    text::lower(text::trim_end(vstd::utf8::decode_utf8(b), Class::Is('.')))
}

fn read_domain(b: &[u8]) -> (r: Option<String>)
    ensures
        match r {
            Some(d) => vstd::utf8::valid_utf8(b@) && d@ == wire_domain(b@),
            None => !vstd::utf8::valid_utf8(b@),
        },
{
    match text::utf8_text(b) {
        None => None,
        Some(s) => {
            let chars = text::chars_of(s);
            let low = text::lower_of(text::trim_end_of(chars.as_slice(), Class::Is('.')));
            Some(text::to_text(low.as_slice()))
        },
    }
}

/// What the request reader waits for.
#[derive(Debug)]
pub enum InboundState {
    Greeting,
    Methods { count: u8 },
    Header,
    Address { command: u8, length: usize },
    DomainLength { command: u8 },
    Domain { command: u8, length: usize },
    Port { command: u8, host: DestinationHost },
    Ended,
}

#[verifier::ext_equal]
pub enum InboundView {
    Greeting,
    Methods { count: u8 },
    Header,
    Address { command: u8, length: usize },
    DomainLength { command: u8 },
    Domain { command: u8, length: usize },
    Port { command: u8, host: HostView },
    Ended,
}

impl View for InboundState {
    type V = InboundView;

    open spec fn view(&self) -> InboundView {
        match self {
            InboundState::Greeting => InboundView::Greeting,
            InboundState::Methods { count } => InboundView::Methods { count: *count },
            InboundState::Header => InboundView::Header,
            InboundState::Address { command, length } => InboundView::Address {
                command: *command,
                length: *length,
            },
            InboundState::DomainLength { command } => InboundView::DomainLength {
                command: *command,
            },
            InboundState::Domain { command, length } => InboundView::Domain {
                command: *command,
                length: *length,
            },
            InboundState::Port { command, host } => InboundView::Port {
                command: *command,
                host: host@,
            },
            InboundState::Ended => InboundView::Ended,
        }
    }
}

/// What follows after the bytes to be written.
#[derive(Debug)]
pub enum InboundStep {
    /// Exactly so many bytes are to be read.
    Read(usize),
    Done(Request),
    Fail(Error),
}

#[verifier::ext_equal]
pub enum InboundStepView {
    Read(nat),
    Done(RequestView),
    Fail(ErrorView),
}

impl View for InboundStep {
    type V = InboundStepView;

    open spec fn view(&self) -> InboundStepView {
        match self {
            InboundStep::Read(n) => InboundStepView::Read(*n as nat),
            InboundStep::Done(r) => InboundStepView::Done(r@),
            InboundStep::Fail(e) => InboundStepView::Fail(e@),
        }
    }
}

/// The state after some bytes, what is written, and what follows.
pub type Turn = (InboundView, Seq<u8>, InboundStepView);

pub open spec fn wait(state: InboundView) -> Turn {
    (state, Seq::empty(), InboundStepView::Read(state.expects()))
}

pub open spec fn fail(send: Seq<u8>, e: ErrorView) -> Turn {
    (InboundView::Ended, send, InboundStepView::Fail(e))
}

pub open spec fn done(r: RequestView) -> Turn {
    (InboundView::Ended, Seq::empty(), InboundStepView::Done(r))
}

/// A reply to a request: the code and an address, or zeros in its place.
pub open spec fn reply(code: u8, address: Option<SocketAddr>) -> Seq<u8> {
    let a = match address {
        Some(a) => a,
        None => SocketAddr::spec_new(IpAddr::V4(0), 0),
    };
    seq![VERSION, code, 0u8] + address::encoded_host(HostView::Ip(a.ip))->Ok_0 + bytes::be_bytes(
        a.port as nat,
        2,
    )
}

pub open spec fn after_methods(input: Seq<u8>) -> Turn {
    if input.contains(METHOD_NO_AUTH) {
        (InboundView::Header, seq![VERSION, METHOD_NO_AUTH], InboundStepView::Read(4))
    } else {
        fail(
            seq![VERSION, METHOD_UNACCEPTABLE],
            error::failure(
                ErrorKind::PermissionDenied,
                "SOCKS5 client did not offer no-auth method"@,
            ),
        )
    }
}

pub open spec fn after_header(input: Seq<u8>) -> Turn {
    let command = input[1];
    if input[0] != VERSION || input[2] != 0 {
        fail(Seq::empty(), malformed("invalid SOCKS5 request header"@))
    } else if input[3] == 1 {
        wait(InboundView::Address { command, length: 4 })
    } else if input[3] == 3 {
        wait(InboundView::DomainLength { command })
    } else if input[3] == 4 {
        wait(InboundView::Address { command, length: 16 })
    } else {
        fail(Seq::empty(), malformed("unsupported SOCKS5 address type"@))
    }
}

pub open spec fn hint_of(host: HostView, port: u16) -> UdpClientHint {
    UdpClientHint {
        ip: match host {
            HostView::Ip(a) => if a.spec_is_unspecified() {
                None
            } else {
                Some(a)
            },
            HostView::Domain(_) => None,
        },
        port: if port != 0 {
            Some(port)
        } else {
            None
        },
    }
}

/// The request that the command, the host and the port make.
pub open spec fn requested(command: u8, host: HostView, port: u16) -> Turn {
    if command == COMMAND_CONNECT {
        match proxy::target(host, port) {
            Ok(t) => done(RequestView::Connect(t)),
            Err(e) => fail(Seq::empty(), e),
        }
    } else if command == COMMAND_UDP_ASSOCIATE {
        done(RequestView::UdpAssociate(hint_of(host, port)))
    } else {
        fail(
            reply(7, None),
            error::failure(
                ErrorKind::Unsupported,
                "SOCKS5 command is not CONNECT or UDP ASSOCIATE"@,
            ),
        )
    }
}

impl InboundView {
    /// How many bytes are read next.
    pub open spec fn expects(self) -> nat {
        match self {
            InboundView::Greeting => 2,
            InboundView::Methods { count } => count as nat,
            InboundView::Header => 4,
            InboundView::Address { command, length } => length as nat,
            InboundView::DomainLength { command } => 1,
            InboundView::Domain { command, length } => length as nat,
            InboundView::Port { command, host } => 2,
            InboundView::Ended => 0,
        }
    }

    pub open spec fn wf(self) -> bool {
        self matches InboundView::Address { command, length } ==> length == 4 || length == 16
    }

    /// What the bytes that were read lead to.
    pub open spec fn next(self, input: Seq<u8>) -> Turn {
        match self {
            InboundView::Greeting => if input[0] != VERSION || input[1] == 0 {
                fail(Seq::empty(), malformed("invalid SOCKS5 greeting"@))
            } else {
                wait(InboundView::Methods { count: input[1] })
            },
            InboundView::Methods { count } => after_methods(input),
            InboundView::Header => after_header(input),
            InboundView::Address { command, length } => wait(
                InboundView::Port { command, host: HostView::Ip(address::address_of(input)) },
            ),
            InboundView::DomainLength { command } => if input[0] == 0 || input[0] > 253 {
                fail(Seq::empty(), malformed("invalid SOCKS5 domain length"@))
            } else {
                wait(InboundView::Domain { command, length: input[0] as usize })
            },
            InboundView::Domain { command, length } => if !vstd::utf8::valid_utf8(input) {
                fail(Seq::empty(), malformed("SOCKS5 domain is not UTF-8"@))
            } else if wire_domain(input).len() == 0 {
                fail(Seq::empty(), malformed("empty SOCKS5 domain"@))
            } else {
                wait(InboundView::Port { command, host: HostView::Domain(wire_domain(input)) })
            },
            InboundView::Port { command, host } => requested(
                command,
                host,
                bytes::be_value(input) as u16,
            ),
            InboundView::Ended => wait(InboundView::Ended),
        }
    }
}

fn has_no_auth(methods: &[u8]) -> (r: bool)
    ensures
        r == methods@.contains(METHOD_NO_AUTH),
{
    let mut i: usize = 0;
    while i < methods.len()
        invariant
            i <= methods@.len(),
            forall|j: int| 0 <= j < i ==> methods@[j] != METHOD_NO_AUTH,
        decreases methods@.len() - i,
    {
        if methods[i] == METHOD_NO_AUTH {
            return true;
        }
        i = i + 1;
    }
    false
}

/// The bytes of a reply.
pub fn encode_reply(code: u8, address: Option<SocketAddr>) -> (r: Vec<u8>)
    ensures
        r@ == reply(code, address),
{
    let a = match address {
        Some(a) => a,
        None => SocketAddr::new(IpAddr::V4(0), 0),
    };
    let mut out: Vec<u8> = Vec::new();
    out.push(VERSION);
    out.push(code);
    out.push(0u8);
    assert(out@ =~= seq![VERSION, code, 0u8]);
    let host = DestinationHost::Ip(a.ip);
    match address::encode_host(&mut out, &host) {
        Ok(_) => {},
        Err(_) => {},
    }
    bytes::push_be(&mut out, a.port as u128, 2);
    out
}

/// The code that tells a client why its target could not be reached.
pub open spec fn error_code(kind: ErrorKind) -> u8 {
    match kind {
        ErrorKind::ConnectionRefused => 5,
        ErrorKind::TimedOut => 4,
        ErrorKind::PermissionDenied => 2,
        ErrorKind::NotFound => 4,
        ErrorKind::AddrNotAvailable => 4,
        ErrorKind::Unsupported => 7,
        _ => 1,
    }
}

pub fn connect_error_code(error: &Error) -> (r: u8)
    ensures
        r == error_code(error@.kind),
{
    match error.kind {
        ErrorKind::ConnectionRefused => 5,
        ErrorKind::TimedOut => 4,
        ErrorKind::PermissionDenied => 2,
        ErrorKind::NotFound => 4,
        ErrorKind::AddrNotAvailable => 4,
        ErrorKind::Unsupported => 7,
        _ => 1,
    }
}

/// What becomes of a request to connect: a rejected one is refused.
pub fn plan_connect(runtime: &Runtime, target: &Target, id: FlowId) -> (r: StreamPlan)
    ensures
        r@ == dispatch::stream_plan(runtime@, target@, id, reply(2, None)),
{
    dispatch::plan_stream(runtime, target, id, encode_reply(2, None))
}

/// What a client is answered once its stream was opened from an address, where
/// that is known, or could not be opened.
pub open spec fn connect_answer(opened: Result<Option<SocketAddr>, ErrorKind>) -> Seq<u8> {
    match opened {
        Ok(local) => reply(0, local),
        Err(kind) => reply(error_code(kind), None),
    }
}

pub fn connect_reply(opened: &Result<Option<SocketAddr>, Error>) -> (r: Vec<u8>)
    ensures
        r@ == connect_answer(
            match *opened {
                Ok(local) => Ok(local),
                Err(e) => Err(e@.kind),
            },
        ),
{
    match opened {
        Ok(local) => encode_reply(0, *local),
        Err(e) => encode_reply(connect_error_code(e), None),
    }
}

/// A request that the policy rejects opens nothing and is answered "not allowed by
/// ruleset"; one that could not be carried out is never answered with success.
pub proof fn law_refusals_are_answered(
    policy: EngineView,
    target: DestinationView,
    id: FlowId,
    kind: ErrorKind,
)
    ensures
        dispatch::planned(policy, target, TransportProtocol::Tcp, id) is Reject
            ==> dispatch::stream_plan(policy, target, id, reply(2, None))
            == dispatch::StreamPlanView::Refuse(seq![5u8, 2, 0, 1, 0, 0, 0, 0, 0, 0]),
        connect_answer(Err(kind))[1] != 0,
        connect_answer(Err(kind)).skip(2) == seq![0u8, 1, 0, 0, 0, 0, 0, 0],
{
    lemma_reply_without_address(2);
    lemma_reply_without_address(error_code(kind));
    assert(connect_answer(Err(kind)).skip(2) =~= seq![0u8, 1, 0, 0, 0, 0, 0, 0]);
}

proof fn lemma_reply_without_address(code: u8)
    ensures
        reply(code, None) == seq![5u8, code, 0, 1, 0, 0, 0, 0, 0, 0],
{
    reveal_with_fuel(bytes::be_bytes, 5);
    assert(reply(code, None) =~= seq![5u8, code, 0, 1, 0, 0, 0, 0, 0, 0]);
}

/// Reads a request of a client, as many bytes at a time as the request asks for.
#[derive(Debug)]
pub struct Socks5Inbound {
    state: InboundState,
}

impl View for Socks5Inbound {
    type V = InboundView;

    closed spec fn view(&self) -> InboundView {
        self.state@
    }
}

impl Socks5Inbound {
    /// The first read takes two bytes.
    pub fn new() -> (r: Socks5Inbound)
        ensures
            r@ == InboundView::Greeting,
            r@.wf(),
    {
        Socks5Inbound { state: InboundState::Greeting }
    }

    fn end(&mut self, send: Vec<u8>, error: Error) -> (r: (Vec<u8>, InboundStep))
        ensures
            (final(self)@, r.0@, r.1@) == fail(send@, error@),
    {
        self.state = InboundState::Ended;
        (send, InboundStep::Fail(error))
    }

    fn go(&mut self, state: InboundState, read: usize) -> (r: (Vec<u8>, InboundStep))
        requires
            read == state@.expects(),
        ensures
            (final(self)@, r.0@, r.1@) == wait(state@),
    {
        self.state = state;
        (Vec::new(), InboundStep::Read(read))
    }

    fn finish(&mut self, command: u8, host: DestinationHost, port: u16) -> (r: (
        Vec<u8>,
        InboundStep,
    ))
        ensures
            (final(self)@, r.0@, r.1@) == requested(command, host@, port),
    {
        if command == COMMAND_CONNECT {
            match Target::new(host, port) {
                Ok(target) => {
                    self.state = InboundState::Ended;
                    (Vec::new(), InboundStep::Done(Request::Connect(target)))
                },
                Err(e) => self.end(Vec::new(), e),
            }
        } else if command == COMMAND_UDP_ASSOCIATE {
            let ip = match host {
                DestinationHost::Ip(a) => if a.is_unspecified() {
                    None
                } else {
                    Some(a)
                },
                DestinationHost::Domain(_) => None,
            };
            let port = if port != 0 {
                Some(port)
            } else {
                None
            };
            self.state = InboundState::Ended;
            (Vec::new(), InboundStep::Done(Request::UdpAssociate(UdpClientHint { ip, port })))
        } else {
            let e = Error::new(
                ErrorKind::Unsupported,
                "SOCKS5 command is not CONNECT or UDP ASSOCIATE",
            );
            self.end(encode_reply(7, None), e)
        }
    }

    /// Takes the bytes that were asked for; gives bytes to be written first, and
    /// what follows them.
    pub fn step(&mut self, input: &[u8]) -> (r: (Vec<u8>, InboundStep))
        requires
            old(self)@.wf(),
            input@.len() == old(self)@.expects(),
        ensures
            final(self)@.wf(),
            (final(self)@, r.0@, r.1@) == old(self)@.next(input@),
    {
        let mut state = InboundState::Ended;
        std::mem::swap(&mut state, &mut self.state);
        match state {
            InboundState::Greeting => {
                if input[0] != VERSION || input[1] == 0 {
                    return self.end(Vec::new(), invalid_data("invalid SOCKS5 greeting"));
                }
                self.go(InboundState::Methods { count: input[1] }, input[1] as usize)
            },
            InboundState::Methods { .. } => {
                let mut send: Vec<u8> = Vec::new();
                send.push(VERSION);
                if has_no_auth(input) {
                    send.push(METHOD_NO_AUTH);
                    assert(send@ =~= seq![VERSION, METHOD_NO_AUTH]);
                    self.state = InboundState::Header;
                    (send, InboundStep::Read(4))
                } else {
                    send.push(METHOD_UNACCEPTABLE);
                    assert(send@ =~= seq![VERSION, METHOD_UNACCEPTABLE]);
                    let e = Error::new(
                        ErrorKind::PermissionDenied,
                        "SOCKS5 client did not offer no-auth method",
                    );
                    self.end(send, e)
                }
            },
            InboundState::Header => {
                let command: u8 = input[1];
                if input[0] != VERSION || input[2] != 0 {
                    return self.end(Vec::new(), invalid_data("invalid SOCKS5 request header"));
                }
                if input[3] == 1 {
                    self.go(InboundState::Address { command, length: 4 }, 4)
                } else if input[3] == 3 {
                    self.go(InboundState::DomainLength { command }, 1)
                } else if input[3] == 4 {
                    self.go(InboundState::Address { command, length: 16 }, 16)
                } else {
                    self.end(Vec::new(), invalid_data("unsupported SOCKS5 address type"))
                }
            },
            InboundState::Address { command, .. } => {
                let host = DestinationHost::Ip(address::read_address(input));
                self.go(InboundState::Port { command, host }, 2)
            },
            InboundState::DomainLength { command } => {
                if input[0] == 0 || input[0] > 253 {
                    return self.end(Vec::new(), invalid_data("invalid SOCKS5 domain length"));
                }
                let length: usize = input[0] as usize;
                self.go(InboundState::Domain { command, length }, length)
            },
            InboundState::Domain { command, .. } => match read_domain(input) {
                None => self.end(Vec::new(), invalid_data("SOCKS5 domain is not UTF-8")),
                Some(domain) => {
                    if text::byte_len_of(domain.as_str()) == 0 {
                        assert(domain@.len() == 0) by {
                            text::lemma_empty_text(domain@);
                        }
                        return self.end(Vec::new(), invalid_data("empty SOCKS5 domain"));
                    }
                    assert(domain@.len() > 0) by {
                        text::lemma_empty_text(domain@);
                    }
                    self.go(
                        InboundState::Port { command, host: DestinationHost::Domain(domain) },
                        2,
                    )
                },
            },
            InboundState::Port { command, host } => {
                proof {
                    bytes::lemma_be_value_bound(input@);
                    bytes::lemma_pow256();
                }
                let port: u16 = bytes::read_be(input) as u16;
                self.finish(command, host, port)
            },
            InboundState::Ended => self.go(InboundState::Ended, 0),
        }
    }
}

/// The host of a wrapped datagram and where it ends.
pub open spec fn udp_host(p: Seq<u8>) -> Result<(HostView, nat), ErrorView> {
    if p[3] == 1 {
        if p.len() < 8 {
            Err(malformed("truncated SOCKS5 UDP IPv4 address"@))
        } else {
            Ok((HostView::Ip(address::address_of(p.subrange(4, 8))), 8))
        }
    } else if p[3] == 3 {
        if p.len() < 5 {
            Err(malformed("truncated SOCKS5 UDP domain length"@))
        } else if p[4] == 0 || p[4] > 253 {
            Err(malformed("invalid SOCKS5 UDP domain length"@))
        } else if p.len() < 5 + p[4] {
            Err(malformed("truncated SOCKS5 UDP domain"@))
        } else {
            let b = p.subrange(5, 5 + p[4]);
            if !vstd::utf8::valid_utf8(b) {
                Err(malformed("SOCKS5 UDP domain is not UTF-8"@))
            } else if wire_domain(b).len() == 0 {
                Err(malformed("empty SOCKS5 UDP domain"@))
            } else {
                Ok((HostView::Domain(wire_domain(b)), (5 + p[4]) as nat))
            }
        }
    } else if p[3] == 4 {
        if p.len() < 20 {
            Err(malformed("truncated SOCKS5 UDP IPv6 address"@))
        } else {
            Ok((HostView::Ip(address::address_of(p.subrange(4, 20))), 20))
        }
    } else {
        Err(malformed("unsupported SOCKS5 UDP address type"@))
    }
}

/// The target and the payload of a wrapped datagram.
pub open spec fn udp_request(p: Seq<u8>) -> Result<(DestinationView, Seq<u8>), ErrorView> {
    if p.len() < 4 || p[0] != 0 || p[1] != 0 {
        Err(malformed("invalid SOCKS5 UDP reserved field"@))
    } else if p[2] != 0 {
        Err(
            error::failure(
                ErrorKind::Unsupported,
                "SOCKS5 UDP fragmentation is not supported"@,
            ),
        )
    } else {
        match udp_host(p) {
            Err(e) => Err(e),
            Ok((host, n)) => if p.len() < n + 2 {
                Err(malformed("truncated SOCKS5 UDP port"@))
            } else {
                match proxy::target(host, bytes::be16(p, n as int) as u16) {
                    Err(e) => Err(e),
                    Ok(t) => Ok((t, p.skip(n as int + 2))),
                }
            },
        }
    }
}

fn parse_udp_host(packet: &[u8]) -> (r: Result<(DestinationHost, usize), Error>)
    requires
        packet@.len() >= 4,
    ensures
        match r {
            Ok((h, n)) => udp_host(packet@) == Ok::<(HostView, nat), ErrorView>((h@, n as nat))
                && n <= packet@.len() && n <= 258,
            Err(e) => udp_host(packet@) == Err::<(HostView, nat), ErrorView>(e@),
        },
{
    let kind: u8 = packet[3];
    if kind == 1 {
        if packet.len() < 8 {
            return Err(invalid_data("truncated SOCKS5 UDP IPv4 address"));
        }
        Ok((DestinationHost::Ip(address::read_address(&packet[4..8])), 8))
    } else if kind == 3 {
        if packet.len() < 5 {
            return Err(invalid_data("truncated SOCKS5 UDP domain length"));
        }
        let length: usize = packet[4] as usize;
        if length == 0 || length > 253 {
            return Err(invalid_data("invalid SOCKS5 UDP domain length"));
        }
        if packet.len() < 5 + length {
            return Err(invalid_data("truncated SOCKS5 UDP domain"));
        }
        match read_domain(&packet[5..5 + length]) {
            None => Err(invalid_data("SOCKS5 UDP domain is not UTF-8")),
            Some(domain) => {
                proof {
                    text::lemma_empty_text(domain@);
                }
                if text::byte_len_of(domain.as_str()) == 0 {
                    return Err(invalid_data("empty SOCKS5 UDP domain"));
                }
                Ok((DestinationHost::Domain(domain), 5 + length))
            },
        }
    } else if kind == 4 {
        if packet.len() < 20 {
            return Err(invalid_data("truncated SOCKS5 UDP IPv6 address"));
        }
        Ok((DestinationHost::Ip(address::read_address(&packet[4..20])), 20))
    } else {
        Err(invalid_data("unsupported SOCKS5 UDP address type"))
    }
}

/// Unwraps a datagram of a client.
pub fn parse_udp_request(packet: &[u8]) -> (r: Result<(Target, &[u8]), Error>)
    ensures
        match r {
            Ok((t, payload)) => udp_request(packet@) == Ok::<
                (DestinationView, Seq<u8>),
                ErrorView,
            >((t@, payload@)),
            Err(e) => udp_request(packet@) == Err::<(DestinationView, Seq<u8>), ErrorView>(e@),
        },
{
    if packet.len() < 4 || packet[0] != 0 || packet[1] != 0 {
        return Err(invalid_data("invalid SOCKS5 UDP reserved field"));
    }
    if packet[2] != 0 {
        return Err(
            Error::new(
                ErrorKind::Unsupported,
                "SOCKS5 UDP fragmentation is not supported",
            ),
        );
    }
    match parse_udp_host(packet) {
        Err(e) => Err(e),
        Ok((host, n)) => {
            if packet.len() < n + 2 {
                return Err(invalid_data("truncated SOCKS5 UDP port"));
            }
            let port: u16 = bytes::read_u16(packet, n);
            match Target::new(host, port) {
                Err(e) => Err(e),
                Ok(target) => {
                    let payload = &packet[n + 2..packet.len()];
                    assert(payload@ =~= packet@.skip(n as int + 2));
                    Ok((target, payload))
                },
            }
        },
    }
}

pub open spec fn response_failure(e: AddressError) -> ErrorView {
    match e {
        AddressError::TooLong => malformed("SOCKS5 UDP response domain is too long"@),
        AddressError::Empty => malformed("SOCKS5 UDP response domain is empty"@),
    }
}

/// A datagram for a client, with where it came from.
pub open spec fn udp_response(source: DestinationView, payload: Seq<u8>) -> Result<
    Seq<u8>,
    ErrorView,
> {
    match address::encoded_host(source.host) {
        Err(e) => Err(response_failure(e)),
        Ok(b) => Ok(
            seq![0u8, 0, 0] + b + bytes::be_bytes(source.port as nat, 2) + payload,
        ),
    }
}

/// Wraps a datagram for a client.
pub fn encode_udp_response(source: &Target, payload: &[u8]) -> (r: Result<Vec<u8>, Error>)
    ensures
        match r {
            Ok(b) => udp_response(source@, payload@) == Ok::<Seq<u8>, ErrorView>(b@),
            Err(e) => udp_response(source@, payload@) == Err::<Seq<u8>, ErrorView>(e@),
        },
{
    let mut out: Vec<u8> = Vec::new();
    out.push(0u8);
    out.push(0u8);
    out.push(0u8);
    assert(out@ =~= seq![0u8, 0, 0]);
    match address::encode_host(&mut out, &source.host) {
        Ok(_) => {},
        Err(AddressError::TooLong) => {
            return Err(invalid_data("SOCKS5 UDP response domain is too long"));
        },
        Err(AddressError::Empty) => {
            return Err(invalid_data("SOCKS5 UDP response domain is empty"));
        },
    }
    bytes::push_be(&mut out, source.port as u128, 2);
    bytes::push_all(&mut out, payload);
    Ok(out)
}

/// A host that a datagram can be addressed to as it is: an address, or a domain of
/// at most 253 bytes in lower case and without dots behind it.
pub open spec fn is_wire_host(host: HostView) -> bool {
    match host {
        HostView::Ip(_) => true,
        HostView::Domain(d) => {
            &&& 1 <= text::byte_len(d) <= 253
            &&& text::lower(text::trim_end(d, Class::Is('.'))) == d
        },
    }
}

/// A wrapped datagram is unwrapped to the same target and payload.
pub proof fn law_wrapped_datagram_is_unwrapped(target: DestinationView, payload: Seq<u8>)
    requires
        is_wire_host(target.host),
        target.port != 0,
    ensures
        udp_response(target, payload) matches Ok(b) && udp_request(b) == Ok::<
            (DestinationView, Seq<u8>),
            ErrorView,
        >((target, payload)),
{
    let h = address::encoded_host(target.host)->Ok_0;
    let p = bytes::be_bytes(target.port as nat, 2);
    let b = seq![0u8, 0, 0] + h + p + payload;
    let n = 3 + h.len();
    bytes::lemma_be16(target.port as nat);
    assert(b[3] == h[0]);
    match target.host {
        HostView::Ip(a) => {
            address::lemma_address_round_trip(a);
            match a {
                IpAddr::V4(v) => {
                    assert(b.subrange(4, 8) =~= bytes::be_bytes(v as nat, 4));
                },
                IpAddr::V6(v) => {
                    assert(b.subrange(4, 20) =~= bytes::be_bytes(v as nat, 16));
                },
            }
        },
        HostView::Domain(d) => {
            let e = vstd::utf8::encode_utf8(d);
            vstd::utf8::encode_utf8_valid_utf8(d);
            vstd::utf8::encode_utf8_decode_utf8(d);
            assert(b[4] == h[1]);
            assert(b.subrange(5, 5 + b[4]) =~= e);
            text::lemma_empty_text(d);
        },
    }
    assert(b.skip(n as int + 2) =~= payload);
    assert(b[n as int] == p[0] && b[n as int + 1] == p[1]);
}

/// What the reader makes of bytes that are all there: where it ends, and the bytes
/// that it leaves.
pub open spec fn read_all(state: InboundView, b: Seq<u8>) -> Option<(InboundStepView, Seq<u8>)>
    decreases b.len(),
{
    let n = state.expects();
    if n == 0 || n > b.len() {
        None
    } else {
        let turn = state.next(b.take(n as int));
        match turn.2 {
            InboundStepView::Read(_) => read_all(turn.0, b.skip(n as int)),
            end => Some((end, b.skip(n as int))),
        }
    }
}

/// The reader goes on behind the bytes that it was waiting for.
proof fn lemma_read_on(state: InboundView, first: Seq<u8>, rest: Seq<u8>)
    requires
        first.len() == state.expects(),
        first.len() > 0,
        state.next(first).2 is Read,
    ensures
        read_all(state, first + rest) == read_all(state.next(first).0, rest),
{
    let b = first + rest;
    assert(b.take(first.len() as int) =~= first);
    assert(b.skip(first.len() as int) =~= rest);
}

/// A request is read up to its port, whatever follows it.
proof fn lemma_request_is_read(command: u8, host: HostView, port: u16, rest: Seq<u8>)
    requires
        is_wire_host(host),
    ensures
        read_all(
            InboundView::Header,
            seq![5u8, command, 0] + address::encoded_host(host)->Ok_0 + bytes::be_bytes(
                port as nat,
                2,
            ) + rest,
        ) == Some((requested(command, host, port).2, rest)),
{
    let h = address::encoded_host(host)->Ok_0;
    let p = bytes::be_bytes(port as nat, 2);
    let q = p + rest;
    let all = seq![5u8, command, 0] + h + p + rest;
    bytes::lemma_be16(port as nat);
    assert(bytes::be_value(p) == port as nat) by {
        bytes::lemma_pow256();
        bytes::lemma_be_round_trip(port as nat, 2);
    }
    let header = seq![5u8, command, 0, h[0]];
    let from_host = h.skip(1) + q;
    assert(all =~= header + from_host);
    lemma_read_on(InboundView::Header, header, from_host);
    let state = InboundView::Port { command, host };
    match host {
        HostView::Ip(a) => {
            address::lemma_address_round_trip(a);
            let bits = h.skip(1);
            match a {
                IpAddr::V4(v) => {
                    assert(bits =~= bytes::be_bytes(v as nat, 4));
                },
                IpAddr::V6(v) => {
                    assert(bits =~= bytes::be_bytes(v as nat, 16));
                },
            }
            lemma_read_on(
                InboundView::Address { command, length: bits.len() as usize },
                bits,
                q,
            );
        },
        HostView::Domain(d) => {
            let e = vstd::utf8::encode_utf8(d);
            vstd::utf8::encode_utf8_valid_utf8(d);
            vstd::utf8::encode_utf8_decode_utf8(d);
            text::lemma_empty_text(d);
            let length = seq![h[1]];
            assert(from_host =~= length + (e + q));
            lemma_read_on(InboundView::DomainLength { command }, length, e + q);
            lemma_read_on(InboundView::Domain { command, length: h[1] as usize }, e, q);
        },
    }
    assert(q.take(2) =~= p);
    assert(q.skip(2) =~= rest);
    assert(read_all(state, q) == Some((requested(command, host, port).2, rest)));
}

/// The SOCKS5 that is spoken to proxies is the SOCKS5 that clients may speak: the
/// greeting and the request for a target are read as a request for this target, to
/// the last byte, and the greeting is answered as the sender of the request expects.
pub proof fn law_request_to_a_proxy_is_understood(target: DestinationView)
    requires
        is_wire_host(target.host),
        target.port != 0,
    ensures
        ({
            let first = protocol::first_step(ProtocolView::Socks5, target).1;
            let second = protocol::after_method(target, after_methods(seq![0u8]).1).1;
            &&& first matches StepView::Exchange { send: greeting, .. }
            &&& second matches StepView::Exchange { send: request, .. }
            &&& read_all(InboundView::Greeting, greeting + request) == Some(
                (InboundStepView::Done(RequestView::Connect(target)), Seq::<u8>::empty()),
            )
        }),
{
    let none = Seq::<u8>::empty();
    let h = address::encoded_host(target.host)->Ok_0;
    let p = bytes::be_bytes(target.port as nat, 2);
    let methods = seq![0u8];
    assert(methods[0] == METHOD_NO_AUTH);
    assert(after_methods(methods).1 =~= seq![5u8, 0]);
    let request = seq![5u8, 1, 0] + (h + p);
    let from_methods = methods + request;
    assert(seq![5u8, 1, 0] + request =~= seq![5u8, 1] + from_methods);
    lemma_read_on(InboundView::Greeting, seq![5u8, 1], from_methods);
    lemma_read_on(InboundView::Methods { count: 1 }, methods, request);
    lemma_request_is_read(1, target.host, target.port, none);
    assert(request =~= seq![5u8, 1, 0] + h + p + none);
}

/// A request is read to its last byte and no further, and its command decides what it
/// asks for: a stream to its target, which needs a port, or an association for
/// datagrams, for which an address or a port of zero says nothing.
pub proof fn law_commands_are_told_apart(command: u8, host: HostView, port: u16, rest: Seq<u8>)
    requires
        is_wire_host(host),
    ensures
        ({
            let b = seq![5u8, command, 0] + address::encoded_host(host)->Ok_0 + bytes::be_bytes(
                port as nat,
                2,
            ) + rest;
            &&& read_all(InboundView::Header, b) matches Some((end, left)) && left == rest && {
                if command == 1 && port != 0 {
                    end == InboundStepView::Done(
                        RequestView::Connect(DestinationView { host, port }),
                    )
                } else if command == 3 {
                    end matches InboundStepView::Done(RequestView::UdpAssociate(hint)) && {
                        &&& hint.port == (if port == 0 {
                            None
                        } else {
                            Some(port)
                        })
                        &&& match host {
                            HostView::Ip(IpAddr::V4(a)) => hint.ip == (if a == 0 {
                                None
                            } else {
                                Some(IpAddr::V4(a))
                            }),
                            HostView::Ip(IpAddr::V6(a)) => hint.ip == (if a == 0 {
                                None
                            } else {
                                Some(IpAddr::V6(a))
                            }),
                            HostView::Domain(_) => hint.ip is None,
                        }
                    }
                } else {
                    end is Fail
                }
            }
        }),
        command != 1 && command != 3 ==> requested(command, host, port).1 == seq![
            5u8,
            7,
            0,
            1,
            0,
            0,
            0,
            0,
            0,
            0,
        ],
{
    lemma_request_is_read(command, host, port, rest);
    lemma_reply_without_address(7);
}

/// A client is served without authentication where it offers that, and is told that
/// nothing it offers will do otherwise.
pub proof fn law_only_no_authentication_is_taken(version: u8, count: u8, methods: Seq<u8>)
    requires
        methods.len() == count,
    ensures
        ({
            let (state, send, step) = InboundView::Greeting.next(seq![version, count]);
            &&& step is Fail <==> version != 5 || count == 0
            &&& !(step is Fail) ==> state == (InboundView::Methods { count }) && step
                == InboundStepView::Read(count as nat)
            &&& send.len() == 0
        }),
        ({
            let (state, send, step) = (InboundView::Methods { count }).next(methods);
            if exists|i: int| 0 <= i < methods.len() && #[trigger] methods[i] == 0 {
                send == seq![5u8, 0] && state == InboundView::Header && step
                    == InboundStepView::Read(4)
            } else {
                send == seq![5u8, 255] && step is Fail && state == InboundView::Ended
            }
        }),
{
    if methods.contains(METHOD_NO_AUTH) {
        let i = methods.index_of(METHOD_NO_AUTH);
        assert(methods[i] == 0);
    }
    if exists|i: int| 0 <= i < methods.len() && #[trigger] methods[i] == 0 {
        let i = choose|i: int| 0 <= i < methods.len() && #[trigger] methods[i] == 0;
        assert(methods.contains(methods[i]));
    }
}

/// A request needs the right version, no reserved bits and an address of a known kind.
pub proof fn law_request_header_is_checked(header: Seq<u8>)
    requires
        header.len() == 4,
    ensures
        ({
            let (state, send, step) = InboundView::Header.next(header);
            &&& step is Fail <==> header[0] != 5 || header[2] != 0 || (header[3] != 1 && header[3]
                != 3 && header[3] != 4)
            &&& !(step is Fail) ==> step == InboundStepView::Read(
                if header[3] == 1 {
                    4
                } else if header[3] == 4 {
                    16
                } else {
                    1
                },
            )
            &&& send.len() == 0
        }),
{
}

/// A domain of a request is read in lower case and without dots at its end; it must
/// have one byte at least and 253 at most, be UTF-8, and be more than dots.
pub proof fn law_requested_domains_are_normalized(command: u8, length: u8, domain: Seq<char>)
    ensures
        (InboundView::DomainLength { command }).next(seq![length]).2 is Fail <==> length == 0
            || length > 253,
        ({
            let b = vstd::utf8::encode_utf8(domain);
            let (state, send, step) = (InboundView::Domain {
                command,
                length: b.len() as usize,
            }).next(b);
            let name = text::lower(text::trim_end(domain, Class::Is('.')));
            if name.len() == 0 {
                step is Fail
            } else {
                state == (InboundView::Port { command, host: HostView::Domain(name) }) && step
                    == InboundStepView::Read(2)
            }
        }),
{
    vstd::utf8::encode_utf8_valid_utf8(domain);
    vstd::utf8::encode_utf8_decode_utf8(domain);
}

/// The answers that clients get are the answers that proxies are expected to give: a
/// success is read to its last byte and ends the handshake, a failure ends it with
/// an error.
pub proof fn law_answer_is_understood(local: Option<SocketAddr>, kind: ErrorKind)
    ensures
        ({
            let answer = connect_answer(Ok(local));
            let turn = protocol::after_reply(answer.take(4));
            &&& turn.0 == protocol::StateView::SocksAddress
            &&& turn.1 == (StepView::Exchange {
                send: Seq::<u8>::empty(),
                read: (answer.len() - 4) as nat,
            })
        }),
        protocol::after_reply(connect_answer(Err(kind)).take(4)).1 is Fail,
{
    let a = match local {
        Some(a) => a,
        None => SocketAddr::spec_new(IpAddr::V4(0), 0),
    };
    let answer = connect_answer(Ok(local));
    bytes::lemma_be_bytes_len(a.port as nat, 2);
    address::lemma_address_round_trip(a.ip);
    let h = address::encoded_host(HostView::Ip(a.ip))->Ok_0;
    assert(answer.take(4) =~= seq![5u8, 0, 0, h[0]]);
    lemma_reply_without_address(error_code(kind));
    assert(connect_answer(Err(kind)).take(4) =~= seq![5u8, error_code(kind), 0, 1]);
}

/// The code of an answer says why: refused by the target, not reachable, not allowed,
/// not supported, or failed for another reason; and it is read from its second byte.
pub proof fn law_failure_codes_say_why(kind: ErrorKind)
    ensures
        ({
            let code = connect_answer(Err(kind))[1];
            &&& code == 5 <==> kind == ErrorKind::ConnectionRefused
            &&& code == 4 <==> kind == ErrorKind::TimedOut || kind == ErrorKind::NotFound || kind
                == ErrorKind::AddrNotAvailable
            &&& code == 2 <==> kind == ErrorKind::PermissionDenied
            &&& code == 7 <==> kind == ErrorKind::Unsupported
            &&& code == 1 || code == 2 || code == 4 || code == 5 || code == 7
        }),
{
    lemma_reply_without_address(error_code(kind));
}

/// A success names the address that the stream was opened from: it reads as a request
/// for that address would.
pub proof fn law_success_names_the_local_address(local: SocketAddr)
    requires
        local.port != 0,
    ensures
        ({
            let answer = connect_answer(Ok(Some(local)));
            &&& answer[0] == 5 && answer[1] == 0 && answer[2] == 0
            &&& read_all(InboundView::Header, seq![5u8, 1, 0] + answer.skip(3)) == Some(
                (
                    InboundStepView::Done(
                        RequestView::Connect(
                            DestinationView { host: HostView::Ip(local.ip), port: local.port },
                        ),
                    ),
                    Seq::<u8>::empty(),
                ),
            )
        }),
{
    let none = Seq::<u8>::empty();
    let h = address::encoded_host(HostView::Ip(local.ip))->Ok_0;
    let p = bytes::be_bytes(local.port as nat, 2);
    let answer = connect_answer(Ok(Some(local)));
    lemma_request_is_read(1, HostView::Ip(local.ip), local.port, none);
    assert(seq![5u8, 1, 0] + answer.skip(3) =~= seq![5u8, 1, 0] + h + p + none);
}

/// A request to connect is carried out over the endpoint that the policy routes it to,
/// and one that the policy rejects is answered "not allowed by ruleset".
pub proof fn law_requests_follow_the_policy(
    runtime: &Runtime,
    target: &Target,
    id: FlowId,
    r: StreamPlan,
)
    requires
        call_ensures(plan_connect, (runtime, target, id), r),
    ensures
        match dispatch::planned(runtime@, target@, TransportProtocol::Tcp, id) {
            crate::plan::ExecutionView::Route { endpoint } => r@
                == dispatch::StreamPlanView::Open(endpoint),
            crate::plan::ExecutionView::Reject { .. } => r@ == dispatch::StreamPlanView::Refuse(
                seq![5u8, 2, 0, 1, 0, 0, 0, 0, 0, 0],
            ),
        },
{
    lemma_reply_without_address(2);
}

/// Fragments of datagrams and datagrams with reserved bits are refused, and so are
/// datagrams for port zero.
pub proof fn law_unusable_datagrams_are_refused(p: Seq<u8>)
    ensures
        p.len() < 4 || p[0] != 0 || p[1] != 0 || p[2] != 0 ==> udp_request(p) is Err,
        p.len() >= 4 && p[0] == 0 && p[1] == 0 && p[2] != 0 ==> (udp_request(p) matches Err(e)
            && e.kind == ErrorKind::Unsupported),
        udp_request(p) matches Ok((t, payload)) ==> t.port != 0 && payload.len() < p.len()
            && payload == p.skip(p.len() - payload.len()),
{
    if let Ok((host, n)) = udp_host(p) {
        if p.len() >= 4 && p[0] == 0 && p[1] == 0 && p[2] == 0 && p.len() >= n + 2 {
            assert(p.skip(n as int + 2).len() == p.len() - n - 2);
        }
    }
}

/// A datagram that names a domain is for that domain in lower case and without the dots at its
/// end; one that names nothing, or no port, is refused.
pub proof fn law_wrapped_domains_are_normalized(domain: Seq<char>, port: u16, payload: Seq<u8>)
    requires
        1 <= text::byte_len(domain) <= 253,
    ensures
        ({
            let e = vstd::utf8::encode_utf8(domain);
            let p = seq![0u8, 0, 0, 3, e.len() as u8] + e + bytes::be_bytes(port as nat, 2)
                + payload;
            let name = text::lower(text::trim_end(domain, Class::Is('.')));
            if name.len() == 0 || port == 0 {
                udp_request(p) is Err
            } else {
                udp_request(p) == Ok::<(DestinationView, Seq<u8>), ErrorView>(
                    (DestinationView { host: HostView::Domain(name), port }, payload),
                )
            }
        }),
{
    let e = vstd::utf8::encode_utf8(domain);
    let q = bytes::be_bytes(port as nat, 2);
    let p = seq![0u8, 0, 0, 3, e.len() as u8] + e + q + payload;
    bytes::lemma_be16(port as nat);
    vstd::utf8::encode_utf8_valid_utf8(domain);
    vstd::utf8::encode_utf8_decode_utf8(domain);
    assert(p[3] == 3 && p[4] == e.len());
    assert(p.subrange(5, 5 + p[4]) =~= e);
    let n = 5 + e.len() as int;
    assert(p[n] == q[0] && p[n + 1] == q[1]);
    assert(p.skip(n + 2) =~= payload);
}

/// A datagram that is cut off before its payload, or whose address is of no known kind or of no
/// allowed length, is refused.
pub proof fn law_cut_off_datagrams_are_refused(p: Seq<u8>)
    requires
        p.len() >= 4,
    ensures
        p[3] != 1 && p[3] != 3 && p[3] != 4 ==> udp_request(p) is Err,
        p[3] == 1 && p.len() < 10 ==> udp_request(p) is Err,
        p[3] == 4 && p.len() < 22 ==> udp_request(p) is Err,
        p[3] == 3 && (p.len() < 5 || p[4] == 0 || p[4] > 253 || p.len() < 5 + p[4] + 2)
            ==> udp_request(p) is Err,
        p.len() >= 10 && p[0] == 0 && p[1] == 0 && p[2] == 0 && p[3] == 1 && bytes::be16(p, 8) != 0
            ==> (udp_request(p) matches Ok((t, payload)) && payload == p.skip(10) && t.port
            == bytes::be16(p, 8)),
        p.len() >= 22 && p[0] == 0 && p[1] == 0 && p[2] == 0 && p[3] == 4 && bytes::be16(p, 20)
            != 0 ==> (udp_request(p) matches Ok((t, payload)) && payload == p.skip(22) && t.port
            == bytes::be16(p, 20)),
{
}

} // verus!
