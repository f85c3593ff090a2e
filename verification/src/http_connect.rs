//! HTTP CONNECT for clients: the request, and the responses to it.

use crate::dispatch;
use crate::dispatch::StreamPlan;
use crate::error;
use crate::error::{Error, ErrorKind, ErrorView};
use crate::flow::{DestinationHost, DestinationView, FlowId, HostView, TransportProtocol};
use crate::net;
use crate::policy::EngineView;
use crate::proxy::Target;
use crate::runtime::Runtime;
use crate::text;
use crate::text::Class;
use vstd::prelude::*;
use vstd::string::*;

pub mod dialect;

verus! {

pub const MAX_HEADER_BYTES: usize = 16 * 1024;

/// How many bytes one read takes at most.
pub const READ_CHUNK: usize = 1024;

pub open spec fn malformed(message: Seq<char>) -> ErrorView {
    error::failure(ErrorKind::InvalidData, message)
}

fn invalid_data(message: &str) -> (r: Error)
    ensures
        r@ == malformed(message@),
{
    Error::new(ErrorKind::InvalidData, message)
}

/// A line end and an empty line.
pub open spec fn ends_header(b: Seq<u8>, i: int) -> bool {
    i + 4 <= b.len() && b[i] == 13 && b[i + 1] == 10 && b[i + 2] == 13 && b[i + 3] == 10
}

/// The first place from `i` on where the header ends.
pub open spec fn header_end_from(b: Seq<u8>, i: nat) -> Option<nat>
    decreases b.len() - i,
{
    if i + 4 > b.len() {
        None
    } else if ends_header(b, i as int) {
        Some(i)
    } else {
        header_end_from(b, i + 1)
    }
}

pub open spec fn header_end(b: Seq<u8>) -> Option<nat> {
    header_end_from(b, 0)
}

pub fn find_header_end(buffer: &[u8]) -> (r: Option<usize>)
    ensures
        match r {
            Some(i) => header_end(buffer@) == Some(i as nat) && i + 4 <= buffer@.len(),
            None => header_end(buffer@) is None,
        },
{
    let length: usize = buffer.len();
    let mut i: usize = 0;
    while length >= 4 && i <= length - 4
        invariant
            length == buffer@.len(),
            i <= length,
            header_end(buffer@) == header_end_from(buffer@, i as nat),
        decreases length - i,
    {
        if buffer[i] == 13 && buffer[i + 1] == 10 && buffer[i + 2] == 13 && buffer[i + 3] == 10 {
            return Some(i);
        }
        i = i + 1;
    }
    None
}

/// How many characters from `i` on stand in front of a line end.
pub open spec fn line_end_from(s: Seq<char>, i: nat) -> nat
    decreases s.len() - i,
{
    if i >= s.len() {
        s.len()
    } else if s[i as int] == '\r' && i + 1 < s.len() && s[i as int + 1] == '\n' {
        i
    } else {
        line_end_from(s, i + 1)
    }
}

/// The text in front of the first line end.
pub open spec fn first_line(s: Seq<char>) -> Seq<char> {
    s.take(line_end_from(s, 0) as int)
}

fn first_line_of(s: &[char]) -> (r: &[char])
    ensures
        r@ == first_line(s@),
{
    let mut i: usize = 0;
    while i < s.len()
        invariant
            i <= s@.len(),
            line_end_from(s@, 0) == line_end_from(s@, i as nat),
        decreases s@.len() - i,
    {
        if s[i] == '\r' && s.len() - i > 1 && s[i + 1] == '\n' {
            let line = &s[0..i];
            assert(line@ =~= first_line(s@));
            return line;
        }
        i = i + 1;
    }
    assert(first_line(s@) =~= s@);
    s
}

pub open spec fn port_of(s: Seq<char>) -> Result<u16, ErrorView> {
    match text::number(s, 65535) {
        None => Err(malformed("invalid CONNECT port"@)),
        Some(p) => if p == 0 {
            Err(malformed("CONNECT port must not be zero"@))
        } else {
            Ok(p as u16)
        },
    }
}

fn parse_port(value: &[char]) -> (r: Result<u16, Error>)
    ensures
        match r {
            Ok(p) => port_of(value@) == Ok::<u16, ErrorView>(p) && p != 0,
            Err(e) => port_of(value@) == Err::<u16, ErrorView>(e@),
        },
{
    match text::number_of(value, 65535) {
        None => Err(invalid_data("invalid CONNECT port")),
        Some(p) => if p == 0 {
            Err(invalid_data("CONNECT port must not be zero"))
        } else {
            assert(p <= 65535);
            Ok(p as u16)
        },
    }
}

/// The host of an authority without brackets.
pub open spec fn host_of(s: Seq<char>) -> Result<HostView, ErrorView> {
    if s.len() == 0 || s.contains(':') {
        Err(malformed("invalid CONNECT host"@))
    } else {
        match net::ip(s) {
            Some(a) => Ok(HostView::Ip(a)),
            None => {
                let d = text::lower(text::trim_end(s, Class::Is('.')));
                if d.len() == 0 || text::byte_len(d) > 253 {
                    Err(malformed("invalid CONNECT domain"@))
                } else {
                    Ok(HostView::Domain(d))
                }
            },
        }
    }
}

/// The host in brackets, and the port behind them.
pub open spec fn bracketed(s: Seq<char>) -> Result<(HostView, Seq<char>), ErrorView> {
    let n = text::leading(s, Class::IsNot(']')) as int;
    if n >= s.len() {
        Err(malformed("invalid bracketed IPv6 authority"@))
    } else {
        let behind = s.skip(n + 1);
        if behind.len() == 0 || behind[0] != ':' {
            Err(malformed("missing CONNECT port"@))
        } else if behind.skip(1).contains(':') {
            Err(malformed("invalid CONNECT port"@))
        } else {
            match net::ip(s.take(n)) {
                None => Err(malformed("invalid IPv6 CONNECT address"@)),
                Some(a) => if a.spec_is_ipv4() {
                    Err(malformed("bracketed CONNECT address must be IPv6"@))
                } else {
                    Ok((HostView::Ip(a), behind.skip(1)))
                },
            }
        }
    }
}

/// The host and the port of an authority, the port still as text.
pub open spec fn split_authority(s: Seq<char>) -> Result<(HostView, Seq<char>), ErrorView> {
    if s.len() > 0 && s[0] == '[' {
        bracketed(s.skip(1))
    } else {
        let n = text::trailing(s, Class::IsNot(':'));
        if n >= s.len() {
            Err(malformed("CONNECT authority must include a port"@))
        } else {
            match host_of(s.take(s.len() - n - 1)) {
                Err(e) => Err(e),
                Ok(h) => Ok((h, s.skip(s.len() - n))),
            }
        }
    }
}

/// The target that an authority names.
pub open spec fn authority(s: Seq<char>) -> Result<DestinationView, ErrorView> {
    match split_authority(s) {
        Err(e) => Err(e),
        Ok((host, port)) => match port_of(port) {
            Err(e) => Err(e),
            Ok(p) => Ok(DestinationView { host, port: p }),
        },
    }
}

fn has_colon(s: &[char]) -> (r: bool)
    ensures
        r == s@.contains(':'),
{
    let mut i: usize = 0;
    while i < s.len()
        invariant
            i <= s@.len(),
            forall|j: int| 0 <= j < i ==> s@[j] != ':',
        decreases s@.len() - i,
    {
        if s[i] == ':' {
            assert(s@[i as int] == ':');
            return true;
        }
        i = i + 1;
    }
    false
}

fn parse_bracketed(s: &[char]) -> (r: Result<(DestinationHost, &[char]), Error>)
    ensures
        match r {
            Ok((h, port)) => bracketed(s@) == Ok::<(HostView, Seq<char>), ErrorView>(
                (h@, port@),
            ),
            Err(e) => bracketed(s@) == Err::<(HostView, Seq<char>), ErrorView>(e@),
        },
{
    let n: usize = text::leading_len(s, Class::IsNot(']'));
    if n >= s.len() {
        return Err(invalid_data("invalid bracketed IPv6 authority"));
    }
    let behind = &s[n + 1..s.len()];
    assert(behind@ =~= s@.skip(n + 1));
    if behind.len() == 0 || behind[0] != ':' {
        return Err(invalid_data("missing CONNECT port"));
    }
    let port = &behind[1..behind.len()];
    assert(port@ =~= behind@.skip(1));
    if has_colon(port) {
        return Err(invalid_data("invalid CONNECT port"));
    }
    let host = &s[0..n];
    assert(host@ =~= s@.take(n as int));
    match net::ip_of(host) {
        None => Err(invalid_data("invalid IPv6 CONNECT address")),
        Some(a) => if a.is_ipv4() {
            Err(invalid_data("bracketed CONNECT address must be IPv6"))
        } else {
            Ok((DestinationHost::Ip(a), port))
        },
    }
}

fn parse_host(s: &[char]) -> (r: Result<DestinationHost, Error>)
    ensures
        match r {
            Ok(h) => host_of(s@) == Ok::<HostView, ErrorView>(h@),
            Err(e) => host_of(s@) == Err::<HostView, ErrorView>(e@),
        },
{
    if s.len() == 0 || has_colon(s) {
        return Err(invalid_data("invalid CONNECT host"));
    }
    match net::ip_of(s) {
        Some(a) => Ok(DestinationHost::Ip(a)),
        None => {
            let low = text::lower_of(text::trim_end_of(s, Class::Is('.')));
            let domain = text::to_text(low.as_slice());
            if low.len() == 0 || text::byte_len_of(domain.as_str()) > 253 {
                return Err(invalid_data("invalid CONNECT domain"));
            }
            Ok(DestinationHost::Domain(domain))
        },
    }
}

fn parse_split(s: &[char]) -> (r: Result<(DestinationHost, &[char]), Error>)
    ensures
        match r {
            Ok((h, port)) => split_authority(s@) == Ok::<(HostView, Seq<char>), ErrorView>(
                (h@, port@),
            ),
            Err(e) => split_authority(s@) == Err::<(HostView, Seq<char>), ErrorView>(e@),
        },
{
    if s.len() > 0 && s[0] == '[' {
        let rest = &s[1..s.len()];
        assert(rest@ =~= s@.skip(1));
        return parse_bracketed(rest);
    }
    let n: usize = text::trailing_len(s, Class::IsNot(':'));
    if n >= s.len() {
        return Err(invalid_data("CONNECT authority must include a port"));
    }
    let cut: usize = s.len() - n;
    let host = &s[0..cut - 1];
    let port = &s[cut..s.len()];
    assert(host@ =~= s@.take(s@.len() - n - 1));
    assert(port@ =~= s@.skip(s@.len() - n));
    match parse_host(host) {
        Err(e) => Err(e),
        Ok(h) => Ok((h, port)),
    }
}

/// Reads an authority.
pub fn parse_authority(value: &str) -> (r: Result<Target, Error>)
    ensures
        match r {
            Ok(t) => authority(value@) == Ok::<DestinationView, ErrorView>(t@),
            Err(e) => authority(value@) == Err::<DestinationView, ErrorView>(e@),
        },
{
    let chars = text::chars_of(value);
    parse_authority_of(chars.as_slice())
}

fn parse_authority_of(s: &[char]) -> (r: Result<Target, Error>)
    ensures
        match r {
            Ok(t) => authority(s@) == Ok::<DestinationView, ErrorView>(t@),
            Err(e) => authority(s@) == Err::<DestinationView, ErrorView>(e@),
        },
{
    match parse_split(s) {
        Err(e) => Err(e),
        Ok((host, port)) => match parse_port(port) {
            Err(e) => Err(e),
            Ok(p) => Target::new(host, p),
        },
    }
}

/// The target of a request whose header ends at `end`, and the bytes behind it.
#[verifier::opaque]
pub open spec fn request(b: Seq<u8>, end: nat) -> Result<(DestinationView, Seq<u8>), ErrorView> {
    let head = b.take(end as int);
    if !vstd::utf8::valid_utf8(head) {
        Err(malformed("HTTP CONNECT headers are not UTF-8"@))
    } else {
        let f = text::fields(first_line(vstd::utf8::decode_utf8(head)));
        if f.len() == 0 {
            Err(malformed("missing HTTP method"@))
        } else if f.len() == 1 {
            Err(malformed("missing CONNECT authority"@))
        } else if f.len() == 2 {
            Err(malformed("missing HTTP version"@))
        } else if f.len() > 3 || f[0] != "CONNECT"@ || !text::starts_with(f[2], "HTTP/1."@) {
            Err(malformed("only HTTP/1.x CONNECT is supported"@))
        } else {
            match authority(f[1]) {
                Err(e) => Err(e),
                Ok(t) => Ok((t, b.skip(end as int + 4))),
            }
        }
    }
}

fn parse_request(buffer: &[u8], end: usize) -> (r: Result<(Target, Vec<u8>), Error>)
    requires
        end + 4 <= buffer@.len(),
    ensures
        match r {
            Ok((t, rest)) => request(buffer@, end as nat) == Ok::<
                (DestinationView, Seq<u8>),
                ErrorView,
            >((t@, rest@)),
            Err(e) => request(buffer@, end as nat) == Err::<(DestinationView, Seq<u8>), ErrorView>(
                e@,
            ),
        },
{
    proof {
        reveal(request);
    }
    let length: usize = buffer.len();
    let head = &buffer[0..end];
    assert(head@ =~= buffer@.take(end as int));
    let header = match text::utf8_text(head) {
        Some(s) => s,
        None => {
            return Err(invalid_data("HTTP CONNECT headers are not UTF-8"));
        },
    };
    let chars = text::chars_of(header);
    let f = text::fields_of(first_line_of(chars.as_slice()));
    if f.len() == 0 {
        return Err(invalid_data("missing HTTP method"));
    }
    if f.len() == 1 {
        return Err(invalid_data("missing CONNECT authority"));
    }
    if f.len() == 2 {
        return Err(invalid_data("missing HTTP version"));
    }
    assert(text::texts(f@)[0] == f@[0]@ && text::texts(f@)[1] == f@[1]@ && text::texts(f@)[2]
        == f@[2]@);
    if f.len() > 3 || !text::is_text(f[0], "CONNECT") || !text::starts_with_of(f[2], "HTTP/1.") {
        return Err(invalid_data("only HTTP/1.x CONNECT is supported"));
    }
    match parse_authority_of(f[1]) {
        Err(e) => Err(e),
        Ok(target) => {
            let rest = crate::bytes::to_bytes(&buffer[end + 4..length]);
            assert(rest@ =~= buffer@.skip(end as int + 4));
            Ok((target, rest))
        },
    }
}

/// What follows the bytes that were read so far.
#[derive(Debug)]
pub enum HttpStep {
    /// At most so many bytes are to be read.
    Read(usize),
    /// The target, and what the client has sent behind its request.
    Done(Target, Vec<u8>),
    Fail(Error),
}

#[verifier::ext_equal]
pub enum HttpStepView {
    Read(nat),
    Done(DestinationView, Seq<u8>),
    Fail(ErrorView),
}

impl View for HttpStep {
    type V = HttpStepView;

    open spec fn view(&self) -> HttpStepView {
        match self {
            HttpStep::Read(n) => HttpStepView::Read(*n as nat),
            HttpStep::Done(t, rest) => HttpStepView::Done(t@, rest@),
            HttpStep::Fail(e) => HttpStepView::Fail(e@),
        }
    }
}

/// What the bytes so far lead to.
pub open spec fn step_of(b: Seq<u8>) -> HttpStepView {
    match header_end(b) {
        Some(end) => match request(b, end) {
            Ok((t, rest)) => HttpStepView::Done(t, rest),
            Err(e) => HttpStepView::Fail(e),
        },
        None => if b.len() >= MAX_HEADER_BYTES {
            HttpStepView::Fail(malformed("HTTP CONNECT header is too large"@))
        } else if MAX_HEADER_BYTES - b.len() < READ_CHUNK {
            HttpStepView::Read((MAX_HEADER_BYTES - b.len()) as nat)
        } else {
            HttpStepView::Read(READ_CHUNK as nat)
        },
    }
}

/// What to do after the client sent some more bytes, or closed.
pub open spec fn fed(b: Seq<u8>, chunk: Seq<u8>) -> HttpStepView {
    if chunk.len() == 0 {
        HttpStepView::Fail(
            error::failure(
                ErrorKind::UnexpectedEof,
                "HTTP CONNECT client closed before headers completed"@,
            ),
        )
    } else {
        step_of(b + chunk)
    }
}

/// Reads the request of a client.
#[derive(Debug)]
pub struct HttpInbound {
    buffer: Vec<u8>,
}

impl View for HttpInbound {
    type V = Seq<u8>;

    closed spec fn view(&self) -> Seq<u8> {
        self.buffer@
    }
}

impl HttpInbound {
    pub fn new() -> (r: HttpInbound)
        ensures
            r@ == Seq::<u8>::empty(),
    {
        HttpInbound { buffer: Vec::new() }
    }

    /// What the bytes so far lead to.
    pub fn step(&self) -> (r: HttpStep)
        ensures
            r@ == step_of(self@),
    {
        match find_header_end(self.buffer.as_slice()) {
            Some(end) => match parse_request(self.buffer.as_slice(), end) {
                Ok((target, rest)) => HttpStep::Done(target, rest),
                Err(e) => HttpStep::Fail(e),
            },
            None => {
                if self.buffer.len() >= MAX_HEADER_BYTES {
                    return HttpStep::Fail(invalid_data("HTTP CONNECT header is too large"));
                }
                let left: usize = MAX_HEADER_BYTES - self.buffer.len();
                if left < READ_CHUNK {
                    HttpStep::Read(left)
                } else {
                    HttpStep::Read(READ_CHUNK)
                }
            },
        }
    }

    /// Takes what was read; nothing means that the client has closed.
    pub fn feed(&mut self, chunk: &[u8]) -> (r: HttpStep)
        ensures
            final(self)@ == old(self)@ + chunk@,
            r@ == fed(old(self)@, chunk@),
    {
        crate::bytes::push_all(&mut self.buffer, chunk);
        if chunk.len() == 0 {
            return HttpStep::Fail(
                Error::new(
                    ErrorKind::UnexpectedEof,
                    "HTTP CONNECT client closed before headers completed",
                ),
            );
        }
        self.step()
    }
}

pub fn bad_request() -> (r: &'static str)
    ensures
        r@ == "HTTP/1.1 400 Bad Request\r\nConnection: close\r\nContent-Length: 0\r\n\r\n"@,
{
    "HTTP/1.1 400 Bad Request\r\nConnection: close\r\nContent-Length: 0\r\n\r\n"
}

pub fn forbidden() -> (r: &'static str)
    ensures
        r@ == "HTTP/1.1 403 Forbidden\r\nConnection: close\r\nContent-Length: 0\r\n\r\n"@,
{
    "HTTP/1.1 403 Forbidden\r\nConnection: close\r\nContent-Length: 0\r\n\r\n"
}

pub fn bad_gateway() -> (r: &'static str)
    ensures
        r@ == "HTTP/1.1 502 Bad Gateway\r\nConnection: close\r\nContent-Length: 0\r\n\r\n"@,
{
    "HTTP/1.1 502 Bad Gateway\r\nConnection: close\r\nContent-Length: 0\r\n\r\n"
}

/// The response to a request whose target was reached.
pub fn established() -> (r: &'static str)
    ensures
        r@
            == "HTTP/1.1 200 Connection Established\r\nProxy-Agent: Commeatus/0.1.0-alpha.1\r\n\r\n"@,
{
    "HTTP/1.1 200 Connection Established\r\nProxy-Agent: Commeatus/0.1.0-alpha.1\r\n\r\n"
}

pub open spec fn forbidden_bytes() -> Seq<u8> {
    vstd::utf8::encode_utf8(
        "HTTP/1.1 403 Forbidden\r\nConnection: close\r\nContent-Length: 0\r\n\r\n"@,
    )
}

/// What becomes of a request: a rejected one is refused.
pub fn plan_connect(runtime: &Runtime, target: &Target, id: FlowId) -> (r: StreamPlan)
    ensures
        r@ == dispatch::stream_plan(runtime@, target@, id, forbidden_bytes()),
{
    dispatch::plan_stream(
        runtime,
        target,
        id,
        crate::bytes::to_bytes(forbidden().as_bytes()),
    )
}

/// What a client is answered once its stream was opened, or could not be.
pub fn connect_response(opened: bool) -> (r: &'static str)
    ensures
        r@ == if opened {
            "HTTP/1.1 200 Connection Established\r\nProxy-Agent: Commeatus/0.1.0-alpha.1\r\n\r\n"@
        } else {
            "HTTP/1.1 502 Bad Gateway\r\nConnection: close\r\nContent-Length: 0\r\n\r\n"@
        },
{
    if opened {
        established()
    } else {
        bad_gateway()
    }
}

/// A request that the policy rejects opens nothing and is answered with a status of
/// 403, and the connection is closed.
pub proof fn law_rejected_request_is_forbidden(policy: EngineView, target: DestinationView, id: FlowId)
    ensures
        dispatch::planned(policy, target, TransportProtocol::Tcp, id) is Reject
            ==> dispatch::stream_plan(policy, target, id, forbidden_bytes())
            == dispatch::StreamPlanView::Refuse(forbidden_bytes()),
{
}

proof fn lemma_header_end_is_first(b: Seq<u8>, i: nat)
    ensures
        match header_end_from(b, i) {
            Some(k) => i <= k && ends_header(b, k as int) && forall|j: int|
                i <= j < k ==> !ends_header(b, j),
            None => forall|j: int| i <= j ==> !ends_header(b, j),
        },
    decreases b.len() - i,
{
    if i + 4 <= b.len() && !ends_header(b, i as int) {
        lemma_header_end_is_first(b, i + 1);
    }
}

/// The end of the header is the one place with these two properties.
pub proof fn lemma_header_end_is(b: Seq<u8>, k: nat)
    requires
        ends_header(b, k as int),
        forall|j: int| 0 <= j < k ==> !#[trigger] ends_header(b, j),
    ensures
        header_end(b) == Some(k),
{
    lemma_header_end_is_first(b, 0);
    match header_end_from(b, 0) {
        Some(n) => {
            if n < k {
                assert(!ends_header(b, n as int));
            } else if k < n {
                assert(!ends_header(b, k as int));
            }
        },
        None => {
            assert(!ends_header(b, k as int));
        },
    }
}

/// What a client sends behind its request goes to the target unchanged: request
/// and rest together are what was read.
pub proof fn law_tunnel_bytes_are_kept(b: Seq<u8>)
    ensures
        step_of(b) matches HttpStepView::Done(t, rest) ==> (header_end(b) matches Some(end)
            && b.len() == end + 4 + rest.len() && b == b.take(end as int + 4) + rest),
{
    reveal(request);
    lemma_header_end_is_first(b, 0);
    if let Some(end) = header_end(b) {
        assert(b =~= b.take(end as int + 4) + b.skip(end as int + 4));
    }
}

proof fn lemma_header_end_stays(b: Seq<u8>, more: Seq<u8>)
    requires
        header_end(b) is Some,
    ensures
        header_end(b + more) == header_end(b),
        header_end(b)->Some_0 + 4 <= b.len(),
{
    lemma_header_end_is_first(b, 0);
    lemma_header_end_is_first(b + more, 0);
    let end = header_end(b)->Some_0;
    let all = b + more;
    assert(ends_header(all, end as int));
    assert forall|j: int| 0 <= j < end implies !ends_header(all, j) by {
        assert(!ends_header(b, j));
    }
    let other = header_end(all)->Some_0;
    if other < end {
        assert(!ends_header(all, other as int));
    }
}

proof fn lemma_request_stays(b: Seq<u8>, more: Seq<u8>, end: nat)
    requires
        end + 4 <= b.len(),
    ensures
        match (request(b, end), request(b + more, end)) {
            (Ok((t, rest)), Ok((u, all))) => t == u && all == rest + more,
            (Err(e), Err(f)) => e == f,
            _ => false,
        },
{
    reveal(request);
    let all = b + more;
    assert(all.take(end as int) =~= b.take(end as int));
    assert(all.skip(end as int + 4) =~= b.skip(end as int + 4) + more);
}

/// A header that is complete stays so, whatever follows it, and leads to the same
/// target.
pub proof fn law_more_bytes_do_not_change_the_request(b: Seq<u8>, more: Seq<u8>)
    requires
        header_end(b) is Some,
    ensures
        match (step_of(b), step_of(b + more)) {
            (HttpStepView::Done(t, rest), HttpStepView::Done(u, all)) => t == u && all == rest
                + more,
            (HttpStepView::Fail(e), HttpStepView::Fail(f)) => e == f,
            _ => false,
        },
{
    lemma_header_end_stays(b, more);
    lemma_request_stays(b, more, header_end(b)->Some_0);
}

/// A request is the same however its bytes arrive, and a client that closes before its request
/// is whole has ended unexpectedly.
pub proof fn law_requests_may_arrive_in_pieces(b: Seq<u8>, first: Seq<u8>, second: Seq<u8>)
    ensures
        first.len() > 0 && second.len() > 0 ==> fed(b + first, second) == fed(b, first + second),
        first.len() > 0 ==> fed(b, first) == step_of(b + first),
        fed(b, Seq::empty()) matches HttpStepView::Fail(e) && e.kind == ErrorKind::UnexpectedEof,
{
    assert(b + first + second =~= b + (first + second));
}

/// A client is answered with success exactly when its tunnel was opened, and told why not
/// otherwise.
pub proof fn law_tunnels_are_announced(opened: bool, r: &'static str)
    requires
        call_ensures(connect_response, (opened,), r),
    ensures
        opened ==> text::starts_with(r@, "HTTP/1.1 200 "@),
        !opened ==> text::starts_with(r@, "HTTP/1.1 502 "@),
{
    reveal_strlit(
        "HTTP/1.1 200 Connection Established\r\nProxy-Agent: Commeatus/0.1.0-alpha.1\r\n\r\n",
    );
    reveal_strlit("HTTP/1.1 502 Bad Gateway\r\nConnection: close\r\nContent-Length: 0\r\n\r\n");
    reveal_strlit("HTTP/1.1 200 ");
    reveal_strlit("HTTP/1.1 502 ");
    if opened {
        assert(r@.take("HTTP/1.1 200 "@.len() as int) =~= "HTTP/1.1 200 "@);
    } else {
        assert(r@.take("HTTP/1.1 502 "@.len() as int) =~= "HTTP/1.1 502 "@);
    }
}

} // verus!
