//! DNS over TLS: framing, reconnection, and the two address families.
//!
//! The TLS stream is driven from outside; this module decides when to connect,
//! what to send and what to make of what came back.

use crate::bytes;
use crate::dns;
use crate::dns::engine;
use crate::dns::engine::Reply;
use crate::dns::hosts;
use crate::dns::wire;
use crate::dns::wire::AddressRecordType;
use crate::dns::{AnswerView, DnsAnswer, DnsError, DnsErrorKind, DnsErrorView, DnsQuery};
use crate::error;
use crate::error::{Error, ErrorKind, ErrorView};
use crate::net::{IpAddr, SocketAddr};
use crate::text;
use crate::time::Duration;
use crate::transport;
use crate::transport::TlsTransport;
use std::sync::Arc;
use vstd::prelude::*;
use vstd::string::*;

verus! {

pub const DOT_LENGTH_BYTES: usize = 2;

pub const DOT_CONNECT_ATTEMPTS: usize = 2;

/// A message with its length in front.
pub open spec fn framed(message: Seq<u8>) -> Result<Seq<u8>, ErrorView> {
    if message.len() > 65535 {
        Err(error::failure(ErrorKind::InvalidInput, "DNS-over-TLS request exceeds 65535 bytes"@))
    } else {
        Ok(bytes::be_bytes(message.len(), 2) + message)
    }
}

fn with_length(request: &[u8]) -> (r: Vec<u8>)
    requires
        request@.len() <= 65535,
    ensures
        r@ == bytes::be_bytes(request@.len(), 2) + request@,
{
    let mut out: Vec<u8> = Vec::new();
    bytes::push_be(&mut out, request.len() as u128, 2);
    bytes::push_all(&mut out, request);
    assert(out@ == bytes::be_bytes(request@.len(), 2) + request@);
    out
}

/// Puts the length of a request in front of it.
pub fn frame_request(request: &[u8]) -> (r: Result<Vec<u8>, Error>)
    ensures
        match r {
            Ok(f) => framed(request@) == Ok::<Seq<u8>, ErrorView>(f@),
            Err(e) => framed(request@) == Err::<Seq<u8>, ErrorView>(e@),
        },
{
    if request.len() > 65535 {
        return Err(
            Error::new(ErrorKind::InvalidInput, "DNS-over-TLS request exceeds 65535 bytes"),
        );
    }
    Ok(with_length(request))
}

/// How many bytes follow the two length bytes of a response.
pub open spec fn response_len(prefix: Seq<u8>) -> Result<nat, ErrorView> {
    let n = bytes::be16(prefix, 0);
    if n < 12 {
        Err(
            error::failure(
                ErrorKind::InvalidData,
                "DNS-over-TLS response is shorter than a DNS header"@,
            ),
        )
    } else {
        Ok(n)
    }
}

/// Reads the length of a response.
pub fn response_length(prefix: &[u8]) -> (r: Result<usize, Error>)
    requires
        prefix@.len() == 2,
    ensures
        match r {
            Ok(n) => response_len(prefix@) == Ok::<nat, ErrorView>(n as nat),
            Err(e) => response_len(prefix@) == Err::<nat, ErrorView>(e@),
        },
{
    let n: usize = bytes::read_u16(prefix, 0) as usize;
    if n < wire::DNS_HEADER_BYTES {
        return Err(
            Error::new(
                ErrorKind::InvalidData,
                "DNS-over-TLS response is shorter than a DNS header",
            ),
        );
    }
    Ok(n)
}

/// A framed message is read back: the length in front of it says where it ends.
pub proof fn law_frame_length_is_read_back(message: Seq<u8>)
    requires
        12 <= message.len() <= 65535,
    ensures
        framed(message) matches Ok(f) && response_len(f.take(2)) == Ok::<nat, ErrorView>(
            message.len(),
        ) && f.skip(2) == message,
{
    let n = message.len();
    let f = bytes::be_bytes(n, 2) + message;
    reveal_with_fuel(bytes::be_bytes, 3);
    bytes::lemma_be_bytes_len(n, 2);
    let b = bytes::be_bytes(n, 2);
    assert(b =~= seq![(n / 256 % 256) as u8, (n % 256) as u8]);
    assert(f.take(2) =~= b);
    assert(f.skip(2) =~= message);
}

/// One request and the attempts that are left to have it answered.
#[derive(Debug)]
pub struct DotExchange {
    request: Vec<u8>,
    attempts: usize,
    connected: bool,
    last_error: Option<String>,
}

#[verifier::ext_equal]
pub struct ExchangeView {
    pub request: Seq<u8>,
    pub attempts: nat,
    pub connected: bool,
    pub last_error: Option<Seq<char>>,
}

impl View for DotExchange {
    type V = ExchangeView;

    closed spec fn view(&self) -> ExchangeView {
        ExchangeView {
            request: self.request@,
            attempts: self.attempts as nat,
            connected: self.connected,
            last_error: crate::flow::optional_text(self.last_error),
        }
    }
}

/// What happened to the stream.
#[derive(Debug)]
pub enum DotEvent {
    Connected,
    ConnectFailed(String),
    Received(Vec<u8>),
    ExchangeFailed(String),
}

#[verifier::ext_equal]
pub enum DotEventView {
    Connected,
    ConnectFailed(Seq<char>),
    Received(Seq<u8>),
    ExchangeFailed(Seq<char>),
}

impl View for DotEvent {
    type V = DotEventView;

    open spec fn view(&self) -> DotEventView {
        match self {
            DotEvent::Connected => DotEventView::Connected,
            DotEvent::ConnectFailed(e) => DotEventView::ConnectFailed(e@),
            DotEvent::Received(m) => DotEventView::Received(m@),
            DotEvent::ExchangeFailed(e) => DotEventView::ExchangeFailed(e@),
        }
    }
}

/// What to do next with the stream.
#[derive(Debug)]
pub enum DotAction {
    Connect,
    Exchange(Vec<u8>),
    Done(Vec<u8>),
    Fail(DnsError),
}

#[verifier::ext_equal]
pub enum DotActionView {
    Connect,
    Exchange(Seq<u8>),
    Done(Seq<u8>),
    Fail(DnsErrorView),
}

impl View for DotAction {
    type V = DotActionView;

    open spec fn view(&self) -> DotActionView {
        match self {
            DotAction::Connect => DotActionView::Connect,
            DotAction::Exchange(m) => DotActionView::Exchange(m@),
            DotAction::Done(m) => DotActionView::Done(m@),
            DotAction::Fail(e) => DotActionView::Fail(e@),
        }
    }
}

impl ExchangeView {
    /// A connected stream is used, an unconnected one is connected, and without an
    /// attempt left the exchange has failed.
    pub open spec fn wanted(self) -> DotActionView {
        if self.attempts == 0 {
            DotActionView::Fail(
                dns::dns_failure(
                    DnsErrorKind::ResolverFailure,
                    "DNS-over-TLS exchange failed after reconnect: "@ + (match self.last_error {
                        Some(e) => e,
                        None => "unknown transport failure"@,
                    }),
                ),
            )
        } else if self.connected {
            DotActionView::Exchange(bytes::be_bytes(self.request.len(), 2) + self.request)
        } else {
            DotActionView::Connect
        }
    }

    /// A failure uses up an attempt, and a failed stream is not used again.
    pub open spec fn after(self, event: DotEventView) -> ExchangeView {
        match event {
            DotEventView::Connected => ExchangeView { connected: true, ..self },
            DotEventView::ConnectFailed(e) => ExchangeView {
                attempts: (self.attempts - 1) as nat,
                connected: false,
                last_error: Some(e),
                ..self
            },
            DotEventView::ExchangeFailed(e) => ExchangeView {
                attempts: (self.attempts - 1) as nat,
                connected: false,
                last_error: Some(e),
                ..self
            },
            DotEventView::Received(_) => self,
        }
    }

    pub open spec fn next(self, event: DotEventView) -> DotActionView {
        match event {
            DotEventView::Received(m) => DotActionView::Done(m),
            _ => self.after(event).wanted(),
        }
    }

    /// How much work is left at most.
    pub open spec fn measure(self) -> nat {
        self.attempts * 2 + if self.connected {
            0nat
        } else {
            1nat
        }
    }

    /// The event answers the action that was asked for.
    pub open spec fn expects(self, event: DotEventView) -> bool {
        match event {
            DotEventView::Connected => self.attempts > 0 && !self.connected,
            DotEventView::ConnectFailed(_) => self.attempts > 0 && !self.connected,
            DotEventView::Received(_) => self.attempts > 0 && self.connected,
            DotEventView::ExchangeFailed(_) => self.attempts > 0 && self.connected,
        }
    }
}

impl DotExchange {
    pub closed spec fn wf(self) -> bool {
        self.request@.len() <= 65535
    }

    /// A new exchange, over the stream of an earlier one where that is still there.
    pub fn new(request: Vec<u8>, connected: bool) -> (r: DotExchange)
        requires
            request@.len() <= 65535,
        ensures
            r.wf(),
            r@ == (ExchangeView { request: request@, attempts: 2, connected, last_error: None }),
    {
        DotExchange { request, attempts: DOT_CONNECT_ATTEMPTS, connected, last_error: None }
    }

    /// Whether the stream can be used for a later exchange.
    pub fn connected(&self) -> (r: bool)
        ensures
            r == self@.connected,
    {
        self.connected
    }

    /// What to do now.
    pub fn action(&self) -> (r: DotAction)
        requires
            self.wf(),
        ensures
            r@ == self@.wanted(),
    {
        if self.attempts == 0 {
            let mut text = "DNS-over-TLS exchange failed after reconnect: ".to_owned();
            match &self.last_error {
                Some(e) => text.append(e.as_str()),
                None => text.append("unknown transport failure"),
            }
            return DotAction::Fail(DnsError::new(DnsErrorKind::ResolverFailure, text.as_str()));
        }
        if self.connected {
            DotAction::Exchange(with_length(self.request.as_slice()))
        } else {
            DotAction::Connect
        }
    }

    /// Takes in what happened and says what to do next.
    pub fn step(&mut self, event: DotEvent) -> (r: DotAction)
        requires
            old(self).wf(),
            old(self)@.expects(event@),
        ensures
            final(self).wf(),
            final(self)@ == old(self)@.after(event@),
            r@ == old(self)@.next(event@),
    {
        match event {
            DotEvent::Connected => {
                self.connected = true;
            },
            DotEvent::ConnectFailed(e) => {
                self.attempts = self.attempts - 1;
                self.last_error = Some(e);
            },
            DotEvent::ExchangeFailed(e) => {
                self.attempts = self.attempts - 1;
                self.last_error = Some(e);
                self.connected = false;
            },
            DotEvent::Received(m) => {
                return DotAction::Done(m);
            },
        }
        self.action()
    }
}

/// An exchange ends: every event that does not finish it leaves less to do, and a
/// fresh one makes no more than two attempts.
pub proof fn law_exchange_makes_two_attempts_at_most(st: ExchangeView, event: DotEventView)
    requires
        st.expects(event),
    ensures
        st.next(event) is Done || st.after(event).measure() < st.measure(),
        event is ConnectFailed || event is ExchangeFailed ==> st.after(event).attempts + 1
            == st.attempts,
        st.next(event) is Fail ==> st.after(event).attempts == 0,
{
}

/// Transaction identifiers, one after the other.
#[derive(Clone, Copy, Debug, PartialEq, Eq, Structural)]
pub struct DotIds {
    next: u16,
}

impl View for DotIds {
    type V = u16;

    closed spec fn view(&self) -> u16 {
        self.next
    }
}

impl DotIds {
    pub fn new() -> (r: DotIds)
        ensures
            r@ == 1,
    {
        DotIds { next: 1 }
    }

    /// The next identifier; after the last one they start again.
    pub fn take(&mut self) -> (r: u16)
        ensures
            r == old(self)@,
            final(self)@ == vstd::wrapping::u16_specs::wrapping_add(old(self)@, 1),
    {
        let id: u16 = self.next;
        self.next = self.next.wrapping_add(1);
        id
    }
}

/// What a response to one query means, and whether its stream can still be
/// trusted: after a malformed response it cannot.
pub fn family_answer(id: u16, query: &DnsQuery, kind: AddressRecordType, response: &[u8]) -> (r: (
    Result<DnsAnswer, DnsError>,
    bool,
))
    ensures
        dns::answers(r.0, wire::response(id, query@, kind, response@)),
        r.1 == !(wire::response(id, query@, kind, response@) matches Err(e) && e.kind
            == DnsErrorKind::InvalidResponse),
{
    let result = wire::parse_address_response(id, query, kind, response);
    let trusted = match &result {
        Ok(_) => true,
        Err(e) => e.kind() != DnsErrorKind::InvalidResponse,
    };
    (result, trusted)
}

/// The times of two answers that both count.
pub open spec fn both_ttl(a: Option<Duration>, b: Option<Duration>) -> Option<Duration> {
    match b {
        Some(t) => Some(dns::shortest(a, t)),
        None => a,
    }
}

/// The answers of the two address families together: one is enough, and both
/// failing is the failure of the second.
pub open spec fn combined(a: Reply, b: Reply) -> Reply {
    match (a, b) {
        (Ok(x), Ok(y)) => dns::answer(
            hosts::with_addresses(hosts::with_addresses(Seq::empty(), x.addresses), y.addresses),
            both_ttl(both_ttl(None, x.ttl), y.ttl),
        ),
        (Ok(x), Err(_)) => dns::answer(
            hosts::with_addresses(Seq::empty(), x.addresses),
            both_ttl(None, x.ttl),
        ),
        (Err(_), Ok(y)) => dns::answer(
            hosts::with_addresses(Seq::empty(), y.addresses),
            both_ttl(None, y.ttl),
        ),
        (Err(_), Err(e)) => Err(e),
    }
}

fn add_answer(list: &mut Vec<IpAddr>, ttl: &mut Option<Duration>, answer: &DnsAnswer)
    ensures
        final(list)@ == hosts::with_addresses(old(list)@, answer@.addresses),
        *final(ttl) == both_ttl(*old(ttl), answer@.ttl),
        final(list)@.len() > 0,
{
    let more = answer.addresses();
    let ghost start = list@;
    let mut i: usize = 0;
    assert(more@.take(0).len() == 0);
    while i < more.len()
        invariant
            i <= more@.len(),
            list@ == hosts::with_addresses(start, more@.take(i as int)),
            i > 0 ==> list@.len() > 0,
        decreases more@.len() - i,
    {
        assert(more@.take(i + 1).drop_last() == more@.take(i as int));
        assert(more@.take(i + 1).last() == more@[i as int]);
        if !dns::holds_address(list.as_slice(), more[i]) {
            list.push(more[i]);
        }
        i = i + 1;
    }
    assert(more@.take(i as int) == more@);
    if let Some(t) = answer.ttl() {
        *ttl = Some(dns::min_ttl(*ttl, t));
    }
}

/// Combines the answers of the two address families.
pub fn combine_families(a: Result<DnsAnswer, DnsError>, b: Result<DnsAnswer, DnsError>) -> (r:
    Result<DnsAnswer, DnsError>)
    ensures
        dns::answers(r, combined(engine::reply_of(a), engine::reply_of(b))),
{
    let mut list: Vec<IpAddr> = Vec::new();
    let mut ttl: Option<Duration> = None;
    if let Ok(answer) = &a {
        add_answer(&mut list, &mut ttl, answer);
    }
    match b {
        Ok(answer) => {
            add_answer(&mut list, &mut ttl, &answer);
        },
        Err(e) => {
            if a.is_err() {
                return Err(e);
            }
        },
    }
    DnsAnswer::new(list, ttl)
}

pub open spec fn dot_transport_failure(reason: Seq<char>) -> DnsErrorView {
    dns::dns_failure(
        DnsErrorKind::InvalidConfiguration,
        "invalid DNS-over-TLS transport: "@ + reason,
    )
}

/// A resolver that asks over TLS, keeping its stream for later questions.
#[derive(Debug)]
pub struct DotResolver {
    transport: TlsTransport,
    ids: DotIds,
    connected: bool,
}

#[verifier::ext_equal]
pub struct DotResolverView {
    pub transport: transport::TlsTransportView,
    pub next_id: u16,
    pub connected: bool,
}

impl DotResolverView {
    /// The exchange that asks for the addresses of a name.
    pub open spec fn exchange(self, query: Seq<char>, kind: AddressRecordType) -> ExchangeView {
        ExchangeView {
            request: wire::query_message(self.next_id, query, kind),
            attempts: 2,
            connected: self.connected,
            last_error: None,
        }
    }

    /// The resolver once it has given out its next number.
    pub open spec fn with_next_id(self) -> DotResolverView {
        DotResolverView {
            next_id: vstd::wrapping::u16_specs::wrapping_add(self.next_id, 1),
            ..self
        }
    }

    /// The resolver after an exchange, which kept its stream or lost it, and the response that
    /// was read, if any.
    pub open spec fn after_exchange(
        self,
        connected: bool,
        response: Option<Result<AnswerView, DnsErrorView>>,
    ) -> DotResolverView {
        DotResolverView {
            connected: connected && !(response matches Some(Err(e)) && e.kind
                == DnsErrorKind::InvalidResponse),
            ..self
        }
    }
}

impl View for DotResolver {
    type V = DotResolverView;

    closed spec fn view(&self) -> DotResolverView {
        DotResolverView {
            transport: self.transport@,
            next_id: self.ids@,
            connected: self.connected,
        }
    }
}

impl DotResolver {
    /// The client settings of the carrier.
    pub closed spec fn spec_config(&self) -> Arc<rustls::ClientConfig> {
        self.transport.spec_config()
    }

    /// A resolver that trusts the public roots.
    pub fn webpki(address: SocketAddr, server_name: &str) -> (r: Result<DotResolver, DnsError>)
        ensures
            match transport::tls_transport(
                address,
                server_name@,
                Duration::spec_from_secs(10),
                Duration::spec_from_secs(10),
            ) {
                Ok(t) => r matches Ok(d) && d@ == (DotResolverView {
                    transport: t,
                    next_id: 1,
                    connected: false,
                }) && transport::are_webpki(d.spec_config()),
                Err(e) => r matches Err(f) && f@ == dot_transport_failure(e.message),
            },
    {
        match TlsTransport::webpki(address, server_name) {
            Ok(transport) => Ok(DotResolver::with_transport(transport)),
            Err(e) => {
                let text = text::join2("invalid DNS-over-TLS transport: ", e.text());
                Err(DnsError::new(DnsErrorKind::InvalidConfiguration, text.as_str()))
            },
        }
    }

    pub fn with_transport(transport: TlsTransport) -> (r: DotResolver)
        ensures
            r@ == (DotResolverView { transport: transport@, next_id: 1, connected: false }),
            r.spec_config() == transport.spec_config(),
    {
        DotResolver { transport, ids: DotIds::new(), connected: false }
    }

    pub fn transport(&self) -> (r: &TlsTransport)
        ensures
            r@ == self@.transport,
            r.spec_config() == self.spec_config(),
    {
        &self.transport
    }

    /// Starts the exchange of one address family; gives its identifier too.
    pub fn begin(&mut self, query: &DnsQuery, kind: AddressRecordType) -> (r: (u16, DotExchange))
        ensures
            r.0 == old(self)@.next_id,
            r.1.wf(),
            r.1@ == old(self)@.exchange(query@, kind),
            final(self)@ == old(self)@.with_next_id(),
            final(self).spec_config() == old(self).spec_config(),
    {
        let id: u16 = self.ids.take();
        let mut request: Vec<u8> = Vec::new();
        if let Ok(message) = wire::encode_address_query(id, query, kind) {
            request = message;
        }
        let name = query.name();
        proof {
            wire::lemma_query_len(id, name@, kind);
        }
        (id, DotExchange::new(request, self.connected))
    }

    /// Ends the exchange of one address family with what it was answered.
    pub fn finish(
        &mut self,
        id: u16,
        query: &DnsQuery,
        kind: AddressRecordType,
        exchange: DotExchange,
        outcome: Result<Vec<u8>, DnsError>,
    ) -> (r: Result<DnsAnswer, DnsError>)
        ensures
            final(self).spec_config() == old(self).spec_config(),
            match outcome {
                Err(e) => engine::reply_of(r) == Err::<AnswerView, DnsErrorView>(e@)
                    && final(self)@ == old(self)@.after_exchange(exchange@.connected, None),
                Ok(m) => dns::answers(r, wire::response(id, query@, kind, m@)) && final(self)@
                    == old(self)@.after_exchange(
                    exchange@.connected,
                    Some(wire::response(id, query@, kind, m@)),
                ),
            },
    {
        match outcome {
            Err(e) => {
                self.connected = exchange.connected();
                Err(e)
            },
            Ok(m) => {
                let (result, trusted) = family_answer(id, query, kind, m.as_slice());
                self.connected = exchange.connected() && trusted;
                result
            },
        }
    }
}

/// One address family is enough: an answer is owed as soon as either lookup has one,
/// and a failure only where both failed, which is then that of the second. The answer
/// lists the addresses of the first family and then those of the second, as far as
/// there is room for sixteen, and none that neither lookup gave.
pub proof fn law_either_family_is_enough(a: Reply, b: Reply)
    requires
        a matches Ok(x) ==> dns::is_address_list(x.addresses),
        b matches Ok(y) ==> dns::is_address_list(y.addresses),
    ensures
        combined(a, b) is Ok <==> a is Ok || b is Ok,
        a is Err ==> combined(a, b) == b,
        a is Ok && b is Err ==> combined(a, b) == a,
        combined(a, b) matches Ok(c) ==> {
            &&& dns::is_address_list(c.addresses)
            &&& a matches Ok(x) ==> x.addresses.is_prefix_of(c.addresses)
            &&& b matches Ok(y) ==> forall|address: IpAddr| #[trigger]
                y.addresses.contains(address) ==> c.addresses.contains(address)
                    || c.addresses.len() == 16
            &&& forall|address: IpAddr| #[trigger]
                c.addresses.contains(address) ==> (a matches Ok(x) && x.addresses.contains(address))
                    || (b matches Ok(y) && y.addresses.contains(address))
        },
{
    let none = Seq::<IpAddr>::empty();
    if let Ok(x) = a {
        hosts::law_added_addresses_follow(none, x.addresses);
        assert(none + x.addresses =~= x.addresses);
        dns::law_answer_lists_its_addresses(x.addresses, x.ttl);
        assert(x.addresses.take(x.addresses.len() as int) =~= x.addresses);
        if let Ok(y) = b {
            let all = hosts::with_addresses(x.addresses, y.addresses);
            hosts::law_added_addresses_follow(x.addresses, y.addresses);
            let ttl = both_ttl(both_ttl(None, x.ttl), y.ttl);
            dns::law_answer_lists_its_addresses(all, ttl);
            let c = combined(a, b)->Ok_0;
            assert forall|address: IpAddr| #[trigger] y.addresses.contains(address) implies
                c.addresses.contains(address) || c.addresses.len() == 16 by {
                assert(all.contains(address));
            }
            assert forall|address: IpAddr| #[trigger] c.addresses.contains(address) implies
                x.addresses.contains(address) || y.addresses.contains(address) by {
                assert(all.contains(address));
            }
        }
    } else if let Ok(y) = b {
        hosts::law_added_addresses_follow(none, y.addresses);
        assert(none + y.addresses =~= y.addresses);
        dns::law_answer_lists_its_addresses(y.addresses, y.ttl);
        assert(y.addresses.take(y.addresses.len() as int) =~= y.addresses);
    }
}

/// An answer of two lookups is kept no longer than either of them allows, and as long
/// as both allow.
pub proof fn law_combined_answer_expires_with_the_first(a: AnswerView, b: AnswerView)
    requires
        dns::is_address_list(a.addresses),
        dns::is_address_list(b.addresses),
    ensures
        combined(Ok(a), Ok(b)) matches Ok(c) && {
            &&& c.ttl is Some <==> a.ttl is Some || b.ttl is Some
            &&& a.ttl matches Some(t) ==> c.ttl->Some_0.nanos <= t.nanos
            &&& b.ttl matches Some(t) ==> c.ttl->Some_0.nanos <= t.nanos
            &&& c.ttl == a.ttl || c.ttl == b.ttl
        },
{
    law_either_family_is_enough(Ok(a), Ok(b));
}

/// An exchange sends its request in a frame over a stream that is there, connects one
/// that is not, and takes what comes back as it is.
pub proof fn law_exchange_sends_the_framed_request(st: ExchangeView, message: Seq<u8>)
    requires
        st.attempts > 0,
        12 <= st.request.len() <= 65535,
    ensures
        !st.connected ==> st.wanted() is Connect,
        st.connected ==> (st.wanted() matches DotActionView::Exchange(b) && response_len(b.take(2))
            == Ok::<nat, ErrorView>(st.request.len()) && b.skip(2) == st.request),
        !st.connected ==> st.next(DotEventView::Connected) is Exchange,
        st.connected ==> st.next(DotEventView::Received(message)) == DotActionView::Done(message)
            && st.after(DotEventView::Received(message)).connected,
        st.after(DotEventView::Connected).request == st.request,
{
    law_frame_length_is_read_back(st.request);
}

/// A stream that failed is not used again: another one is connected while an attempt is
/// left, and the last failure is reported where none is.
pub proof fn law_failed_stream_is_replaced(st: ExchangeView, reason: Seq<char>)
    requires
        st.attempts > 0,
    ensures
        st.connected ==> {
            let next = st.next(DotEventView::ExchangeFailed(reason));
            &&& !st.after(DotEventView::ExchangeFailed(reason)).connected
            &&& st.after(DotEventView::ExchangeFailed(reason)).request == st.request
            &&& st.attempts > 1 ==> next is Connect
            &&& st.attempts == 1 ==> (next matches DotActionView::Fail(e) && e.kind
                == DnsErrorKind::ResolverFailure && reason.is_suffix_of(e.message))
        },
        !st.connected ==> {
            let next = st.next(DotEventView::ConnectFailed(reason));
            &&& st.attempts > 1 ==> next is Connect
            &&& st.attempts == 1 ==> (next matches DotActionView::Fail(e) && e.kind
                == DnsErrorKind::ResolverFailure && reason.is_suffix_of(e.message))
        },
{
    let text = "DNS-over-TLS exchange failed after reconnect: "@ + reason;
    assert(text.skip(text.len() - reason.len()) =~= reason);
}

/// A stream is trusted after a response that is well formed, though it may report a
/// failure, and not after one that is malformed.
pub proof fn law_malformed_responses_spoil_the_stream(
    id: u16,
    query: &DnsQuery,
    kind: AddressRecordType,
    response: &[u8],
    r: (Result<DnsAnswer, DnsError>, bool),
)
    requires
        call_ensures(family_answer, (id, query, kind, response), r),
    ensures
        r.0 is Ok ==> r.1,
        r.0 matches Err(e) ==> (r.1 <==> e@.kind != DnsErrorKind::InvalidResponse),
{
}

/// A stream is used again as long as no exchange lost it and every response on it made sense;
/// a server that has no such name keeps its stream.
pub proof fn law_stream_is_kept_while_it_makes_sense(
    resolver: DotResolverView,
    connected: bool,
    response: Option<Result<AnswerView, DnsErrorView>>,
)
    ensures
        ({
            let after = resolver.after_exchange(connected, response);
            &&& after.connected ==> connected
            &&& connected && (response is None || response->0 is Ok) ==> after.connected
            &&& response matches Some(Err(e)) ==> connected ==> (after.connected <==> e.kind
                != DnsErrorKind::InvalidResponse)
            &&& after.next_id == resolver.next_id
            &&& after.transport == resolver.transport
        }),
{
}

/// Each question has the number after the one before it, names what is asked, and is tried
/// twice at most, over the stream that is open if there is one.
pub proof fn law_questions_are_numbered_in_turn(
    resolver: DotResolverView,
    query: Seq<char>,
    kind: AddressRecordType,
)
    ensures
        resolver.with_next_id().next_id != resolver.next_id,
        resolver.next_id < 65535 ==> resolver.with_next_id().next_id == resolver.next_id + 1,
        resolver.next_id == 65535 ==> resolver.with_next_id().next_id == 0,
        resolver.with_next_id().connected == resolver.connected,
        resolver.exchange(query, kind).request == wire::query_message(
            resolver.next_id,
            query,
            kind,
        ),
        resolver.exchange(query, kind).attempts == 2,
        resolver.exchange(query, kind).connected == resolver.connected,
{
}

} // verus!
