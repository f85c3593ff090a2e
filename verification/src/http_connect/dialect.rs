//! The CONNECT that is spoken to proxies is the CONNECT that clients may speak.

use crate::error::{ErrorKind, ErrorView};
use crate::flow::{DestinationView, HostView};
use crate::http_connect;
use crate::http_connect::HttpStepView;
use crate::net;
use crate::net::notation;
use crate::net::IpAddr;
use crate::protocol;
use crate::protocol::StepView;
use crate::text;
use crate::text::Class;
use vstd::prelude::*;

verus! {

/// A host that an authority names as it is: an address, or a domain that is in lower
/// case, has no dots behind it, holds no colons, and could not be taken for an
/// address.
pub open spec fn is_authority_host(host: HostView) -> bool {
    match host {
        HostView::Ip(_) => true,
        HostView::Domain(d) => {
            &&& 1 <= text::byte_len(d) <= 253
            &&& text::lower(text::trim_end(d, Class::Is('.'))) == d
            &&& notation::lacks(d, ':')
            &&& d.len() > 0 ==> d[0] != '['
            &&& net::ip(d) is None
        },
    }
}

/// A host whose name holds no white space, which would end the authority in a
/// request line.
pub open spec fn is_one_word(host: HostView) -> bool {
    match host {
        HostView::Ip(_) => true,
        HostView::Domain(d) => forall|i: int|
            0 <= i < d.len() ==> !text::is_space(#[trigger] d[i]),
    }
}

proof fn lemma_port(port: u16)
    requires
        port != 0,
    ensures
        http_connect::port_of(text::decimal(port as nat)) == Ok::<u16, ErrorView>(port),
        notation::lacks(text::decimal(port as nat), ':'),
{
    let d = text::decimal(port as nat);
    notation::lemma_decimal(port as nat);
    assert(text::is_digit(d[0]));
    assert forall|i: int| 0 <= i < d.len() implies #[trigger] d[i] != ':' by {
        assert(text::is_digit(d[i]));
    }
}

proof fn lemma_bracketed(t: Seq<char>, a: IpAddr, d: Seq<char>)
    requires
        net::ip(t) == Some(a),
        a is V6,
        notation::lacks(t, ']'),
        notation::lacks(d, ':'),
    ensures
        http_connect::split_authority(seq!['['] + t + seq![']', ':'] + d) == Ok::<
            (HostView, Seq<char>),
            ErrorView,
        >((HostView::Ip(a), d)),
{
    let s = seq!['['] + t + seq![']', ':'] + d;
    let inner = s.skip(1);
    assert(s[0] == '[');
    assert(inner =~= t + seq![']', ':'] + d);
    assert forall|i: int| 0 <= i < t.len() implies Class::IsNot(']').has(#[trigger] inner[i]) by {
        assert(inner[i] == t[i]);
    }
    assert(inner[t.len() as int] == ']');
    text::lemma_leading_is(inner, Class::IsNot(']'), t.len());
    let behind = inner.skip(t.len() as int + 1);
    assert(behind =~= seq![':'] + d);
    assert(behind.skip(1) =~= d);
    assert(inner.take(t.len() as int) =~= t);
}

proof fn lemma_unbracketed(t: Seq<char>, host: HostView, port: u16)
    requires
        http_connect::host_of(t) == Ok::<HostView, ErrorView>(host),
        t.len() > 0,
        t[0] != '[',
    ensures
        http_connect::split_authority(t.push(':') + text::decimal(port as nat)) == Ok::<
            (HostView, Seq<char>),
            ErrorView,
        >((host, text::decimal(port as nat))),
{
    let s = t.push(':') + text::decimal(port as nat);
    notation::lemma_port(t, port);
    assert(s[0] == t[0]);
}

proof fn lemma_host_of_address(t: Seq<char>, a: IpAddr)
    requires
        net::ip(t) == Some(a),
        notation::lacks(t, ':'),
        t.len() > 0,
    ensures
        http_connect::host_of(t) == Ok::<HostView, ErrorView>(HostView::Ip(a)),
{
}

proof fn lemma_host_of_domain(d: Seq<char>)
    requires
        is_authority_host(HostView::Domain(d)),
        d.len() > 0,
    ensures
        http_connect::host_of(d) == Ok::<HostView, ErrorView>(HostView::Domain(d)),
{
}

proof fn lemma_read_back(s: Seq<char>, target: DestinationView)
    requires
        http_connect::split_authority(s) == Ok::<(HostView, Seq<char>), ErrorView>(
            (target.host, text::decimal(target.port as nat)),
        ),
        target.port != 0,
    ensures
        http_connect::authority(s) == Ok::<DestinationView, ErrorView>(target),
{
    lemma_port(target.port);
}

proof fn lemma_bracketed_authority(t: Seq<char>, a: IpAddr, port: u16)
    requires
        net::ip(t) == Some(a),
        a is V6,
        notation::lacks(t, ']'),
        port != 0,
    ensures
        http_connect::authority("["@ + t + "]"@ + ":"@ + text::decimal(port as nat)) == Ok::<
            DestinationView,
            ErrorView,
        >(DestinationView { host: HostView::Ip(a), port }),
{
    let d = text::decimal(port as nat);
    lemma_port(port);
    lemma_bracketed(t, a, d);
    lemma_bracket_text(t, d);
    lemma_read_back(
        "["@ + t + "]"@ + ":"@ + d,
        DestinationView { host: HostView::Ip(a), port },
    );
}

proof fn lemma_bracket_text(t: Seq<char>, d: Seq<char>)
    ensures
        "["@ + t + "]"@ + ":"@ + d == seq!['['] + t + seq![']', ':'] + d,
{
    reveal_strlit(":");
    reveal_strlit("[");
    reveal_strlit("]");
    assert("["@ + t + "]"@ + ":"@ + d =~= seq!['['] + t + seq![']', ':'] + d);
}

proof fn lemma_ipv6_authority(n: u128, port: u16)
    requires
        port != 0,
    ensures
        ({
            let target = DestinationView { host: HostView::Ip(IpAddr::V6(n)), port };
            http_connect::authority(protocol::authority(target)) == Ok::<
                DestinationView,
                ErrorView,
            >(target)
        }),
{
    notation::lemma_ipv6_text(n);
    notation::law_address_is_read_back(IpAddr::V6(n));
    lemma_bracketed_authority(net::ipv6_text(n), IpAddr::V6(n), port);
}

proof fn lemma_ipv4_authority(n: u32, port: u16)
    requires
        port != 0,
    ensures
        ({
            let target = DestinationView { host: HostView::Ip(IpAddr::V4(n)), port };
            http_connect::authority(protocol::authority(target)) == Ok::<
                DestinationView,
                ErrorView,
            >(target)
        }),
{
    let target = DestinationView { host: HostView::Ip(IpAddr::V4(n)), port };
    let s = protocol::authority(target);
    let d = text::decimal(port as nat);
    reveal_strlit(":");
    let t = net::ipv4_text(n);
    notation::lemma_ipv4_text(n);
    notation::lemma_ipv4_first(n);
    notation::law_address_is_read_back(IpAddr::V4(n));
    lemma_host_of_address(t, IpAddr::V4(n));
    lemma_unbracketed(t, target.host, port);
    assert(s =~= t.push(':') + d);
    lemma_read_back(s, target);
}

/// The target is read back from its authority.
pub proof fn law_authority_is_read_back(target: DestinationView)
    requires
        is_authority_host(target.host),
        target.port != 0,
    ensures
        http_connect::authority(protocol::authority(target)) == Ok::<DestinationView, ErrorView>(
            target,
        ),
{
    match target.host {
        HostView::Ip(IpAddr::V6(n)) => lemma_ipv6_authority(n, target.port),
        HostView::Ip(IpAddr::V4(n)) => lemma_ipv4_authority(n, target.port),
        HostView::Domain(t) => {
            let s = protocol::authority(target);
            reveal_strlit(":");
            text::lemma_empty_text(t);
            lemma_host_of_domain(t);
            lemma_unbracketed(t, target.host, target.port);
            assert(s =~= t.push(':') + text::decimal(target.port as nat));
            lemma_read_back(s, target);
        },
    }
}

/// Two texts in a row are encoded one after the other.
proof fn lemma_encode_concat(a: Seq<char>, b: Seq<char>)
    ensures
        vstd::utf8::encode_utf8(a + b) == vstd::utf8::encode_utf8(a) + vstd::utf8::encode_utf8(b),
    decreases a.len(),
{
    if a.len() == 0 {
        assert(a + b =~= b);
        assert(vstd::utf8::encode_utf8(a) =~= Seq::<u8>::empty());
        assert(Seq::<u8>::empty() + vstd::utf8::encode_utf8(b) =~= vstd::utf8::encode_utf8(b));
    } else {
        lemma_encode_concat(a.drop_first(), b);
        assert((a + b).drop_first() =~= a.drop_first() + b);
        assert((a + b)[0] == a[0]);
        let first = vstd::utf8::encode_scalar(a[0] as u32);
        let middle = vstd::utf8::encode_utf8(a.drop_first());
        assert(first + (middle + vstd::utf8::encode_utf8(b)) =~= (first + middle)
            + vstd::utf8::encode_utf8(b));
    }
}

/// Only a carriage return is encoded with the byte of a carriage return.
proof fn lemma_no_return_in_scalar(c: char)
    requires
        c != '\r',
    ensures
        forall|i: int|
            0 <= i < vstd::utf8::encode_scalar(c as u32).len() ==> #[trigger] vstd::utf8::encode_scalar(
                c as u32,
            )[i] != 13,
{
    let v = c as u32;
    assert(v != 13);
    assert(v < 0x80 && v != 13 ==> (v & 0x7F) as u8 != 13u8) by (bit_vector);
    assert(forall|x: u8| #[trigger] (0x80u8 | x) >= 0x80) by (bit_vector);
    assert(forall|x: u8| #[trigger] (0xC0u8 | x) >= 0x80) by (bit_vector);
    assert(forall|x: u8| #[trigger] (0xE0u8 | x) >= 0x80) by (bit_vector);
    assert(forall|x: u8| #[trigger] (0xF0u8 | x) >= 0x80) by (bit_vector);
}

proof fn lemma_no_return(s: Seq<char>)
    requires
        notation::lacks(s, '\r'),
    ensures
        forall|i: int|
            0 <= i < vstd::utf8::encode_utf8(s).len() ==> #[trigger] vstd::utf8::encode_utf8(s)[i]
                != 13,
    decreases s.len(),
{
    if s.len() > 0 {
        let first = vstd::utf8::encode_scalar(s[0] as u32);
        let rest = s.drop_first();
        lemma_no_return_in_scalar(s[0]);
        assert(notation::lacks(rest, '\r'));
        lemma_no_return(rest);
        let e = vstd::utf8::encode_utf8(s);
        assert forall|i: int| 0 <= i < e.len() implies #[trigger] e[i] != 13 by {
            if i < first.len() {
                assert(e[i] == first[i]);
            } else {
                assert(e[i] == vstd::utf8::encode_utf8(rest)[i - first.len()]);
            }
        }
    }
}

/// A header of two lines ends behind the second one, and nowhere earlier.
proof fn lemma_header_of_lines(x: Seq<u8>, y: Seq<u8>, z: Seq<u8>)
    requires
        forall|i: int| 0 <= i < x.len() ==> #[trigger] x[i] != 13,
        forall|i: int| 0 <= i < y.len() ==> #[trigger] y[i] != 13,
        forall|i: int| 0 <= i < z.len() ==> #[trigger] z[i] != 13,
        y.len() > 0,
        z.len() > 0,
    ensures
        ({
            let b = x + seq![13u8, 10] + y + seq![13u8, 10] + z + seq![13u8, 10, 13, 10];
            http_connect::header_end(b) == Some((b.len() - 4) as nat)
        }),
{
    let b = x + seq![13u8, 10] + y + seq![13u8, 10] + z + seq![13u8, 10, 13, 10];
    let end = b.len() - 4;
    let p = x.len() as int;
    let q = p + 2 + y.len();
    assert(http_connect::ends_header(b, end));
    assert forall|j: int| 0 <= j < end implies !#[trigger] http_connect::ends_header(b, j) by {
        if j < p {
            assert(b[j] == x[j]);
        } else if j == p {
            assert(b[j + 2] == y[0]);
        } else if j == p + 1 {
            assert(b[j] == 10);
        } else if j < q {
            assert(b[j] == y[j - p - 2]);
        } else if j == q {
            assert(b[j + 2] == z[0]);
        } else if j == q + 1 {
            assert(b[j] == 10);
        } else {
            assert(b[j] == z[j - q - 2]);
        }
    }
    http_connect::lemma_header_end_is(b, end as nat);
}

/// The first word is split off in front of a space.
proof fn lemma_fields_first(word: Seq<char>, rest: Seq<char>)
    requires
        word.len() > 0,
        forall|i: int| 0 <= i < word.len() ==> !text::is_space(#[trigger] word[i]),
    ensures
        text::fields(word + seq![' '] + rest) == seq![word] + text::fields(rest),
{
    let s = word + seq![' '] + rest;
    assert(s[0] == word[0]);
    text::lemma_leading_is(s, Class::Space, 0);
    assert(s.skip(0) =~= s);
    assert forall|i: int| 0 <= i < word.len() implies Class::NonSpace.has(#[trigger] s[i]) by {
        assert(s[i] == word[i]);
    }
    assert(s[word.len() as int] == ' ');
    text::lemma_leading_is(s, Class::NonSpace, word.len());
    assert(s.take(word.len() as int) =~= word);
    let behind = s.skip(word.len() as int);
    assert(behind =~= seq![' '] + rest);
    assert(behind[0] == ' ');
    assert(behind.drop_first() =~= rest);
    text::lemma_leading(rest, Class::Space);
    let n = text::leading(rest, Class::Space);
    assert(text::leading(behind, Class::Space) == n + 1);
    assert(behind.skip(n as int + 1) =~= rest.skip(n as int));
    assert(text::fields(behind) == text::fields(rest));
}

proof fn lemma_fields_last(word: Seq<char>)
    requires
        word.len() > 0,
        forall|i: int| 0 <= i < word.len() ==> !text::is_space(#[trigger] word[i]),
    ensures
        text::fields(word) == seq![word],
{
    text::lemma_leading_is(word, Class::Space, 0);
    assert(word.skip(0) =~= word);
    assert forall|i: int| 0 <= i < word.len() implies Class::NonSpace.has(#[trigger] word[i]) by {}
    text::lemma_leading_is(word, Class::NonSpace, word.len());
    assert(word.take(word.len() as int) =~= word);
    let behind = word.skip(word.len() as int);
    assert(behind =~= Seq::<char>::empty());
    assert(text::fields(behind) =~= Seq::<Seq<char>>::empty());
    assert(seq![word] + Seq::<Seq<char>>::empty() =~= seq![word]);
}

/// The first line ends at the first line end.
proof fn lemma_first_line(line: Seq<char>, rest: Seq<char>, i: nat)
    requires
        notation::lacks(line, '\r'),
        i <= line.len(),
    ensures
        http_connect::line_end_from(line + seq!['\r', '\n'] + rest, i) == line.len(),
    decreases line.len() - i,
{
    let s = line + seq!['\r', '\n'] + rest;
    if i < line.len() {
        assert(s[i as int] == line[i as int]);
        lemma_first_line(line, rest, i + 1);
    } else {
        assert(s[i as int] == '\r' && s[i as int + 1] == '\n');
    }
}

/// The text holds no white space.
pub open spec fn is_word(s: Seq<char>) -> bool {
    s.len() > 0 && forall|i: int| 0 <= i < s.len() ==> !text::is_space(#[trigger] s[i])
}

proof fn lemma_authority_is_a_word(target: DestinationView)
    requires
        is_authority_host(target.host),
        is_one_word(target.host),
    ensures
        is_word(protocol::authority(target)),
{
    let s = protocol::authority(target);
    let d = text::decimal(target.port as nat);
    reveal_strlit(":");
    reveal_strlit("[");
    reveal_strlit("]");
    notation::lemma_decimal(target.port as nat);
    let host = match target.host {
        HostView::Ip(IpAddr::V4(n)) => {
            notation::lemma_ipv4_text(n);
            net::ipv4_text(n)
        },
        HostView::Ip(IpAddr::V6(n)) => {
            notation::lemma_ipv6_text(n);
            let t = net::ipv6_text(n);
            let b = "["@ + t + "]"@;
            assert forall|i: int| 0 <= i < b.len() implies !text::is_space(#[trigger] b[i]) by {
                if 0 < i < b.len() - 1 {
                    assert(b[i] == t[i - 1]);
                }
            }
            b
        },
        HostView::Domain(t) => t,
    };
    assert(s == host + ":"@ + d);
    assert forall|i: int| 0 <= i < s.len() implies !text::is_space(#[trigger] s[i]) by {
        if i < host.len() {
            assert(s[i] == host[i]);
        } else if i > host.len() {
            assert(s[i] == d[i - host.len() - 1]);
            assert(text::is_digit(d[i - host.len() - 1]));
        }
    }
}

/// The lines of a request to a proxy.
spec fn request_line(a: Seq<char>) -> Seq<char> {
    seq!['C', 'O', 'N', 'N', 'E', 'C', 'T'] + seq![' '] + (a + seq![' '] + seq![
        'H',
        'T',
        'T',
        'P',
        '/',
        '1',
        '.',
        '1',
    ])
}

spec fn host_line(a: Seq<char>) -> Seq<char> {
    seq!['H', 'o', 's', 't', ':', ' '] + a
}

spec fn return_and_feed() -> Seq<char> {
    seq!['\r', '\n']
}

proof fn lemma_request_text(target: DestinationView)
    ensures
        ({
            let a = protocol::authority(target);
            protocol::http_request(target) == request_line(a) + return_and_feed() + host_line(a)
                + return_and_feed() + "Proxy-Connection: Keep-Alive"@ + return_and_feed()
                + return_and_feed()
        }),
{
    let a = protocol::authority(target);
    reveal_strlit("CONNECT ");
    reveal_strlit(" HTTP/1.1\r\nHost: ");
    reveal_strlit("\r\nProxy-Connection: Keep-Alive\r\n\r\n");
    reveal_strlit("Proxy-Connection: Keep-Alive");
    assert("CONNECT "@ =~= seq!['C', 'O', 'N', 'N', 'E', 'C', 'T'] + seq![' ']);
    assert(" HTTP/1.1\r\nHost: "@ =~= seq![' '] + seq!['H', 'T', 'T', 'P', '/', '1', '.', '1']
        + return_and_feed() + seq!['H', 'o', 's', 't', ':', ' ']);
    assert("\r\nProxy-Connection: Keep-Alive\r\n\r\n"@ =~= return_and_feed()
        + "Proxy-Connection: Keep-Alive"@ + return_and_feed() + return_and_feed());
    assert(protocol::http_request(target) =~= request_line(a) + return_and_feed() + host_line(a)
        + return_and_feed() + "Proxy-Connection: Keep-Alive"@ + return_and_feed()
        + return_and_feed());
}

proof fn lemma_line_bytes()
    ensures
        vstd::utf8::encode_utf8(return_and_feed()) == seq![13u8, 10],
{
    let s = return_and_feed();
    assert(vstd::utf8::is_ascii_chars(s));
    vstd::utf8::is_ascii_chars_encode_utf8(s);
    assert(s[0] == '\r' && s[1] == '\n');
    assert(vstd::utf8::encode_utf8(s) =~= seq![13u8, 10]);
}

/// Where the bytes of lines end a header.
proof fn lemma_request_bytes(x: Seq<char>, y: Seq<char>, z: Seq<char>)
    requires
        notation::lacks(x, '\r'),
        notation::lacks(y, '\r'),
        notation::lacks(z, '\r'),
        y.len() > 0,
        z.len() > 0,
    ensures
        ({
            let n = return_and_feed();
            let head = x + n + y + n + z;
            let b = vstd::utf8::encode_utf8(head + n + n);
            &&& http_connect::header_end(b) == Some(vstd::utf8::encode_utf8(head).len())
            &&& b == vstd::utf8::encode_utf8(head) + seq![13u8, 10, 13, 10]
        }),
{
    let n = return_and_feed();
    let head = x + n + y + n + z;
    let (ex, ey, ez) = (
        vstd::utf8::encode_utf8(x),
        vstd::utf8::encode_utf8(y),
        vstd::utf8::encode_utf8(z),
    );
    lemma_line_bytes();
    lemma_encode_concat(x, n);
    lemma_encode_concat(x + n, y);
    lemma_encode_concat(x + n + y, n);
    lemma_encode_concat(x + n + y + n, z);
    lemma_encode_concat(head, n);
    lemma_encode_concat(head + n, n);
    lemma_no_return(x);
    lemma_no_return(y);
    lemma_no_return(z);
    text::lemma_empty_text(y);
    text::lemma_empty_text(z);
    lemma_header_of_lines(ex, ey, ez);
    let e = vstd::utf8::encode_utf8(head);
    let b = vstd::utf8::encode_utf8(head + n + n);
    assert(b =~= e + seq![13u8, 10, 13, 10]);
    assert(b =~= ex + seq![13u8, 10] + ey + seq![13u8, 10] + ez + seq![13u8, 10, 13, 10]);
}

proof fn lemma_request_fields(a: Seq<char>)
    requires
        is_word(a),
    ensures
        text::fields(request_line(a)) == seq!["CONNECT"@, a, "HTTP/1.1"@],
        notation::lacks(request_line(a), '\r'),
        notation::lacks(host_line(a), '\r'),
{
    let first = seq!['C', 'O', 'N', 'N', 'E', 'C', 'T'];
    let last = seq!['H', 'T', 'T', 'P', '/', '1', '.', '1'];
    reveal_strlit("CONNECT");
    reveal_strlit("HTTP/1.1");
    assert("CONNECT"@ =~= first);
    assert("HTTP/1.1"@ =~= last);
    lemma_fields_first(first, a + seq![' '] + last);
    lemma_fields_first(a, last);
    lemma_fields_last(last);
    assert(text::fields(request_line(a)) =~= seq!["CONNECT"@, a, "HTTP/1.1"@]);
    let x = request_line(a);
    assert forall|i: int| 0 <= i < x.len() implies #[trigger] x[i] != '\r' by {
        if 8 <= i < 8 + a.len() {
            assert(x[i] == a[i - 8]);
        }
    }
    let y = host_line(a);
    assert forall|i: int| 0 <= i < y.len() implies #[trigger] y[i] != '\r' by {
        if i >= 6 {
            assert(y[i] == a[i - 6]);
        }
    }
}

/// The text is an authority, and names the target.
#[verifier::opaque]
spec fn names(a: Seq<char>, target: DestinationView) -> bool {
    http_connect::authority(a) == Ok::<DestinationView, ErrorView>(target)
}

/// The request that is sent to an HTTP proxy is the request that a client may send:
/// it is read as a request for the same target, to the last byte.
pub proof fn law_request_to_a_proxy_is_understood(target: DestinationView)
    requires
        is_authority_host(target.host),
        is_one_word(target.host),
        target.port != 0,
    ensures
        protocol::first_step(protocol::ProtocolView::HttpConnect, target).1 matches
            protocol::StepView::Exchange { send, .. } && http_connect::step_of(send)
            == HttpStepView::Done(target, Seq::<u8>::empty()),
{
    lemma_authority_is_a_word(target);
    law_authority_is_read_back(target);
    reveal(names);
    lemma_request_text(target);
    lemma_request_is_understood(
        protocol::authority(target),
        protocol::http_request(target),
        target,
    );
}

proof fn lemma_request_is_understood(a: Seq<char>, r: Seq<char>, target: DestinationView)
    requires
        is_word(a),
        names(a, target),
        r == request_line(a) + return_and_feed() + host_line(a) + return_and_feed()
            + "Proxy-Connection: Keep-Alive"@ + return_and_feed() + return_and_feed(),
    ensures
        http_connect::step_of(vstd::utf8::encode_utf8(r)) == HttpStepView::Done(
            target,
            Seq::<u8>::empty(),
        ),
{
    lemma_request_fields(a);
    lemma_agent_line();
    lemma_request_is_read(
        request_line(a),
        host_line(a),
        "Proxy-Connection: Keep-Alive"@,
        a,
        target,
    );
}

proof fn lemma_agent_line()
    ensures
        notation::lacks("Proxy-Connection: Keep-Alive"@, '\r'),
        "Proxy-Connection: Keep-Alive"@.len() > 0,
{
    reveal_strlit("Proxy-Connection: Keep-Alive");
    let z = "Proxy-Connection: Keep-Alive"@;
    assert forall|i: int| 0 <= i < z.len() implies #[trigger] z[i] != '\r' by {}
}

/// What is read of a header whose text is given.
proof fn lemma_header_is_read(e: Seq<u8>, head: Seq<char>, a: Seq<char>, target: DestinationView)
    requires
        names(a, target),
        e == vstd::utf8::encode_utf8(head),
        text::fields(http_connect::first_line(head)) == seq!["CONNECT"@, a, "HTTP/1.1"@],
    ensures
        http_connect::request(e + seq![13u8, 10, 13, 10], e.len()) == Ok::<
            (DestinationView, Seq<u8>),
            ErrorView,
        >((target, Seq::<u8>::empty())),
{
    let b = e + seq![13u8, 10, 13, 10];
    assert(b.take(e.len() as int) =~= e);
    assert(b.skip(e.len() as int + 4) =~= Seq::<u8>::empty());
    vstd::utf8::encode_utf8_valid_utf8(head);
    vstd::utf8::encode_utf8_decode_utf8(head);
    lemma_version();
    reveal(names);
    reveal(http_connect::request);
}

proof fn lemma_request_is_read(
    x: Seq<char>,
    y: Seq<char>,
    z: Seq<char>,
    a: Seq<char>,
    target: DestinationView,
)
    requires
        names(a, target),
        text::fields(x) == seq!["CONNECT"@, a, "HTTP/1.1"@],
        notation::lacks(x, '\r'),
        notation::lacks(y, '\r'),
        notation::lacks(z, '\r'),
        y.len() > 0,
        z.len() > 0,
    ensures
        ({
            let n = return_and_feed();
            http_connect::step_of(vstd::utf8::encode_utf8(x + n + y + n + z + n + n))
                == HttpStepView::Done(target, Seq::<u8>::empty())
        }),
{
    let n = return_and_feed();
    let head = x + n + y + n + z;
    let e = vstd::utf8::encode_utf8(head);
    let b = vstd::utf8::encode_utf8(head + n + n);
    lemma_request_bytes(x, y, z);
    lemma_first_line_of_head(x, y, z);
    lemma_header_is_read(e, head, a, target);
    lemma_step(b, e.len(), target);
}

proof fn lemma_step(b: Seq<u8>, end: nat, target: DestinationView)
    requires
        http_connect::header_end(b) == Some(end),
        http_connect::request(b, end) == Ok::<(DestinationView, Seq<u8>), ErrorView>(
            (target, Seq::<u8>::empty()),
        ),
    ensures
        http_connect::step_of(b) == HttpStepView::Done(target, Seq::<u8>::empty()),
{
}

proof fn lemma_first_line_of_head(x: Seq<char>, y: Seq<char>, z: Seq<char>)
    requires
        notation::lacks(x, '\r'),
    ensures
        ({
            let n = return_and_feed();
            http_connect::first_line(x + n + y + n + z) == x
        }),
{
    let n = return_and_feed();
    let head = x + n + y + n + z;
    let rest = y + n + z;
    assert(head =~= x + seq!['\r', '\n'] + rest);
    lemma_first_line(x, rest, 0);
    assert(head.take(x.len() as int) =~= x);
}

proof fn lemma_version()
    ensures
        text::starts_with("HTTP/1.1"@, "HTTP/1."@),
{
    reveal_strlit("HTTP/1.1");
    reveal_strlit("HTTP/1.");
    assert("HTTP/1.1"@.take(7) =~= "HTTP/1."@);
}

/// A response with a status: the line of the status, further lines, and a blank line.
pub open spec fn response_text(status: nat, reason: Seq<char>, further: Seq<char>) -> Seq<char> {
    "HTTP/1.1 "@ + text::decimal(status) + " "@ + reason + "\r\n"@ + further + "\r\n\r\n"@
}

/// The line of a status.
spec fn status_line(digits: Seq<char>, reason: Seq<char>) -> Seq<char> {
    seq!['H', 'T', 'T', 'P', '/', '1', '.', '1'] + seq![' '] + (digits + seq![' '] + reason)
}

proof fn lemma_response_text(status: nat, reason: Seq<char>, further: Seq<char>)
    ensures
        response_text(status, reason, further) == status_line(text::decimal(status), reason)
            + return_and_feed() + further + return_and_feed() + return_and_feed(),
{
    reveal_strlit("HTTP/1.1 ");
    reveal_strlit(" ");
    reveal_strlit("\r\n");
    reveal_strlit("\r\n\r\n");
    let n = return_and_feed();
    assert("HTTP/1.1 "@ =~= seq!['H', 'T', 'T', 'P', '/', '1', '.', '1'] + seq![' ']);
    assert(" "@ =~= seq![' ']);
    assert("\r\n"@ =~= n);
    assert("\r\n\r\n"@ =~= n + n);
    assert(response_text(status, reason, further) =~= status_line(text::decimal(status), reason) + n
        + further + n + n);
}

/// A text in front of a blank line is what is read of its bytes.
proof fn lemma_head_of_text(front: Seq<char>)
    ensures
        ({
            let s = front + return_and_feed() + return_and_feed();
            let head = vstd::utf8::encode_utf8(s);
            &&& protocol::ends_with_blank_line(head)
            &&& vstd::utf8::valid_utf8(head)
            &&& vstd::utf8::decode_utf8(head) == s
        }),
{
    let n = return_and_feed();
    let s = front + n + n;
    let head = vstd::utf8::encode_utf8(s);
    lemma_line_bytes();
    lemma_encode_concat(front, n);
    lemma_encode_concat(front + n, n);
    assert(head =~= vstd::utf8::encode_utf8(front) + seq![13u8, 10, 13, 10]);
    vstd::utf8::encode_utf8_valid_utf8(s);
    vstd::utf8::encode_utf8_decode_utf8(s);
}

proof fn lemma_status_fields(status: nat, reason: Seq<char>)
    requires
        status <= 65535,
        notation::lacks(reason, '\n'),
        notation::lacks(reason, '\r'),
    ensures
        ({
            let line = status_line(text::decimal(status), reason);
            let f = text::fields(line);
            &&& f.len() >= 2
            &&& text::starts_with(f[0], "HTTP/1."@)
            &&& text::number(f[1], 65535) == Some(status)
            &&& notation::lacks(line, '\n')
            &&& line.last() != '\r'
        }),
{
    let d = text::decimal(status);
    let version = seq!['H', 'T', 'T', 'P', '/', '1', '.', '1'];
    let line = status_line(d, reason);
    notation::lemma_decimal(status);
    assert forall|i: int| 0 <= i < d.len() implies !text::is_space(#[trigger] d[i]) by {
        assert(text::is_digit(d[i]));
    }
    lemma_fields_first(version, d + seq![' '] + reason);
    lemma_fields_first(d, reason);
    let f = text::fields(line);
    assert(f[0] == version && f[1] == d);
    reveal_strlit("HTTP/1.");
    assert(version.take(7) =~= "HTTP/1."@);
    assert(text::is_digit(d[0]));
    assert forall|i: int| 0 <= i < line.len() implies #[trigger] line[i] != '\n' by {
        if 9 <= i < 9 + d.len() {
            assert(line[i] == d[i - 9]);
            assert(text::is_digit(d[i - 9]));
        } else if 10 + d.len() <= i {
            assert(line[i] == reason[i - 10 - d.len()]);
        }
    }
    if reason.len() > 0 {
        assert(line.last() == reason[reason.len() - 1]);
    } else {
        assert(line.last() == ' ');
    }
}

/// The status of a proxy's response decides: a stream is open exactly where it is one
/// of success, whatever else the response says.
pub proof fn law_status_decides_the_handshake(
    status: nat,
    reason: Seq<char>,
    further: Seq<char>,
)
    requires
        status <= 65535,
        notation::lacks(reason, '\n'),
        notation::lacks(reason, '\r'),
    ensures
        ({
            let head = vstd::utf8::encode_utf8(response_text(status, reason, further));
            let step = protocol::after_head(head).1;
            if 200 <= status < 300 {
                step is Done
            } else {
                step matches StepView::Fail(e) && e.kind == ErrorKind::ConnectionRefused
            }
        }),
{
    let line = status_line(text::decimal(status), reason);
    let n = return_and_feed();
    lemma_response_text(status, reason, further);
    lemma_head_of_text(line + n + further);
    lemma_status_fields(status, reason);
    let s = response_text(status, reason, further);
    let rest = further + n + n;
    assert(s =~= line + seq!['\r', '\n'] + rest);
    text::law_lines_end_at_line_ends(line, rest);
    assert(text::lines(s)[0] == line);
}

/// Only CONNECT of HTTP/1.x is served: a request that is taken has these three words in
/// its first line, and its target is the second.
pub proof fn law_only_connect_is_served(b: Seq<u8>)
    ensures
        http_connect::step_of(b) matches HttpStepView::Done(t, _) ==> {
            let end = http_connect::header_end(b)->Some_0;
            let line = http_connect::first_line(vstd::utf8::decode_utf8(b.take(end as int)));
            let f = text::fields(line);
            &&& f.len() == 3
            &&& f[0] == "CONNECT"@
            &&& text::starts_with(f[2], "HTTP/1."@)
            &&& http_connect::authority(f[1]) == Ok::<DestinationView, ErrorView>(t)
            &&& t.port != 0
        },
{
    reveal(http_connect::request);
}

/// The lines behind the first one do not matter: a request for a target is read as such
/// whatever headers follow, to its blank line.
pub proof fn law_headers_do_not_matter(target: DestinationView, name: Seq<char>, other: Seq<char>)
    requires
        is_authority_host(target.host),
        is_one_word(target.host),
        target.port != 0,
        name.len() > 0,
        other.len() > 0,
        notation::lacks(name, '\r'),
        notation::lacks(other, '\r'),
    ensures
        ({
            let n = "\r\n"@;
            let b = vstd::utf8::encode_utf8(
                "CONNECT "@ + protocol::authority(target) + " HTTP/1.1"@ + n + name + n + other + n
                    + n,
            );
            http_connect::step_of(b) == HttpStepView::Done(target, Seq::<u8>::empty())
        }),
{
    let a = protocol::authority(target);
    let n = return_and_feed();
    lemma_request_words(a);
    lemma_authority_is_a_word(target);
    law_authority_is_read_back(target);
    reveal(names);
    lemma_request_fields(a);
    lemma_request_is_read(request_line(a), name, other, a, target);
}

proof fn lemma_request_words(a: Seq<char>)
    ensures
        "CONNECT "@ + a + " HTTP/1.1"@ == request_line(a),
        "\r\n"@ == return_and_feed(),
{
    reveal_strlit("CONNECT ");
    reveal_strlit(" HTTP/1.1");
    reveal_strlit("\r\n");
    assert("\r\n"@ =~= return_and_feed());
    assert("CONNECT "@ + a + " HTTP/1.1"@ =~= request_line(a));
}

/// A request is read up to its bound and not beyond it: while there is no blank line,
/// more is asked for as long as there is room, and never more than there is room for.
pub proof fn law_request_head_is_bounded(b: Seq<u8>)
    requires
        http_connect::header_end(b) is None,
    ensures
        http_connect::step_of(b) matches HttpStepView::Read(n) ==> 0 < n && b.len() + n <= 16384,
        http_connect::step_of(b) is Read <==> b.len() < 16384,
        http_connect::step_of(b) is Fail <==> b.len() >= 16384,
{
}

/// The answers that clients get are the answers that proxies are expected to give: a
/// stream that was opened is reported as a success, and anything else as a failure.
pub proof fn law_answers_are_understood(
    opened: bool,
    r: &'static str,
    refused: &'static str,
    malformed: &'static str,
)
    requires
        call_ensures(http_connect::connect_response, (opened,), r),
        call_ensures(http_connect::forbidden, (), refused),
        call_ensures(http_connect::bad_request, (), malformed),
    ensures
        protocol::after_head(vstd::utf8::encode_utf8(r@)).1 is Done <==> opened,
        protocol::after_head(vstd::utf8::encode_utf8(r@)).1 is Fail <==> !opened,
        protocol::after_head(vstd::utf8::encode_utf8(refused@)).1 is Fail,
        protocol::after_head(vstd::utf8::encode_utf8(malformed@)).1 is Fail,
{
    lemma_established();
    lemma_bad_gateway();
    lemma_forbidden();
    lemma_bad_request();
}

proof fn lemma_established()
    ensures
        protocol::after_head(
            vstd::utf8::encode_utf8(
                "HTTP/1.1 200 Connection Established\r\nProxy-Agent: Commeatus/0.1.0-alpha.1\r\n\r\n"@,
            ),
        ).1 is Done,
{
    reveal_strlit(
        "HTTP/1.1 200 Connection Established\r\nProxy-Agent: Commeatus/0.1.0-alpha.1\r\n\r\n",
    );
    reveal_strlit("Connection Established");
    reveal_strlit("Proxy-Agent: Commeatus/0.1.0-alpha.1");
    lemma_three_digits(2, 0, 0);
    let reason = "Connection Established"@;
    let further = "Proxy-Agent: Commeatus/0.1.0-alpha.1"@;
    law_status_decides_the_handshake(200, reason, further);
    lemma_response_text(200, reason, further);
    assert(response_text(200, reason, further)
        =~= "HTTP/1.1 200 Connection Established\r\nProxy-Agent: Commeatus/0.1.0-alpha.1\r\n\r\n"@);
}

proof fn lemma_bad_gateway()
    ensures
        protocol::after_head(
            vstd::utf8::encode_utf8(
                "HTTP/1.1 502 Bad Gateway\r\nConnection: close\r\nContent-Length: 0\r\n\r\n"@,
            ),
        ).1 is Fail,
{
    reveal_strlit("HTTP/1.1 502 Bad Gateway\r\nConnection: close\r\nContent-Length: 0\r\n\r\n");
    reveal_strlit("Bad Gateway");
    reveal_strlit("Connection: close\r\nContent-Length: 0");
    lemma_three_digits(5, 0, 2);
    let further = "Connection: close\r\nContent-Length: 0"@;
    law_status_decides_the_handshake(502, "Bad Gateway"@, further);
    lemma_response_text(502, "Bad Gateway"@, further);
    assert(response_text(502, "Bad Gateway"@, further)
        =~= "HTTP/1.1 502 Bad Gateway\r\nConnection: close\r\nContent-Length: 0\r\n\r\n"@);
}

proof fn lemma_forbidden()
    ensures
        protocol::after_head(
            vstd::utf8::encode_utf8(
                "HTTP/1.1 403 Forbidden\r\nConnection: close\r\nContent-Length: 0\r\n\r\n"@,
            ),
        ).1 is Fail,
{
    reveal_strlit("HTTP/1.1 403 Forbidden\r\nConnection: close\r\nContent-Length: 0\r\n\r\n");
    reveal_strlit("Forbidden");
    reveal_strlit("Connection: close\r\nContent-Length: 0");
    lemma_three_digits(4, 0, 3);
    let further = "Connection: close\r\nContent-Length: 0"@;
    law_status_decides_the_handshake(403, "Forbidden"@, further);
    lemma_response_text(403, "Forbidden"@, further);
    assert(response_text(403, "Forbidden"@, further)
        =~= "HTTP/1.1 403 Forbidden\r\nConnection: close\r\nContent-Length: 0\r\n\r\n"@);
}

proof fn lemma_bad_request()
    ensures
        protocol::after_head(
            vstd::utf8::encode_utf8(
                "HTTP/1.1 400 Bad Request\r\nConnection: close\r\nContent-Length: 0\r\n\r\n"@,
            ),
        ).1 is Fail,
{
    reveal_strlit("HTTP/1.1 400 Bad Request\r\nConnection: close\r\nContent-Length: 0\r\n\r\n");
    reveal_strlit("Bad Request");
    reveal_strlit("Connection: close\r\nContent-Length: 0");
    lemma_three_digits(4, 0, 0);
    let further = "Connection: close\r\nContent-Length: 0"@;
    law_status_decides_the_handshake(400, "Bad Request"@, further);
    lemma_response_text(400, "Bad Request"@, further);
    assert(response_text(400, "Bad Request"@, further)
        =~= "HTTP/1.1 400 Bad Request\r\nConnection: close\r\nContent-Length: 0\r\n\r\n"@);
}

proof fn lemma_three_digits(a: nat, b: nat, c: nat)
    requires
        0 < a < 10,
        b < 10,
        c < 10,
    ensures
        text::decimal(a * 100 + b * 10 + c) == seq![
            text::digit_char(a),
            text::digit_char(b),
            text::digit_char(c),
        ],
{
    let n = a * 100 + b * 10 + c;
    assert(n / 10 == a * 10 + b && n % 10 == c);
    assert((n / 10) / 10 == a && (n / 10) % 10 == b);
    reveal_with_fuel(text::decimal, 4);
    assert(text::decimal(n) =~= seq![
        text::digit_char(a),
        text::digit_char(b),
        text::digit_char(c),
    ]);
}

/// An authority is a host, a colon and a port. The host is an address where it reads as one,
/// and a domain otherwise, in lower case and without the dots at its end; the port is a number
/// from 1 to 65535.
pub proof fn law_authority_is_host_and_port(host: Seq<char>, port: Seq<char>)
    requires
        host.len() > 0,
        host[0] != '[',
        notation::lacks(host, ':'),
        notation::lacks(port, ':'),
    ensures
        ({
            let r = http_connect::authority(host.push(':') + port);
            let name = text::lower(text::trim_end(host, Class::Is('.')));
            let is_host = net::ip(host) is Some || 0 < text::byte_len(name) <= 253;
            &&& r is Ok <==> is_host && (text::number(port, 65535) matches Some(p) && p > 0)
            &&& r matches Ok(t) ==> {
                &&& text::number(port, 65535) == Some(t.port as nat)
                &&& t.host == match net::ip(host) {
                    Some(a) => HostView::Ip(a),
                    None => HostView::Domain(name),
                }
            }
            &&& r matches Err(e) ==> e.kind == ErrorKind::InvalidData
        }),
{
    let s = host.push(':') + port;
    let name = text::lower(text::trim_end(host, Class::Is('.')));
    lemma_behind_the_colon(host, port);
    assert(s[0] == host[0]);
    text::lemma_empty_text(name);
}

proof fn lemma_behind_the_colon(host: Seq<char>, port: Seq<char>)
    requires
        notation::lacks(port, ':'),
    ensures
        ({
            let s = host.push(':') + port;
            let n = text::trailing(s, Class::IsNot(':'));
            &&& n == port.len() < s.len()
            &&& s.take(s.len() - n - 1) == host
            &&& s.skip(s.len() - n) == port
        }),
{
    let s = host.push(':') + port;
    assert forall|i: int| s.len() - port.len() <= i < s.len() implies Class::IsNot(':').has(
        #[trigger] s[i],
    ) by {
        assert(s[i] == port[i - host.len() - 1]);
    }
    assert(s[s.len() - port.len() - 1] == ':');
    text::lemma_trailing_is(s, Class::IsNot(':'), port.len());
    assert(s.take(s.len() - port.len() - 1) =~= host);
    assert(s.skip(s.len() - port.len()) =~= port);
}

/// In brackets there is an IPv6 address and nothing else, and a port behind them.
pub proof fn law_brackets_hold_an_ipv6_address(host: Seq<char>, port: Seq<char>)
    requires
        notation::lacks(host, ']'),
        notation::lacks(port, ':'),
    ensures
        ({
            let r = http_connect::authority(seq!['['] + host + seq![']', ':'] + port);
            &&& r is Ok <==> (net::ip(host) matches Some(a) && a is V6) && (text::number(
                port,
                65535,
            ) matches Some(p) && p > 0)
            &&& r matches Ok(t) ==> text::number(port, 65535) == Some(t.port as nat) && (net::ip(
                host,
            ) matches Some(a) && t.host == HostView::Ip(a))
            &&& r matches Err(e) ==> e.kind == ErrorKind::InvalidData
        }),
{
    let s = seq!['['] + host + seq![']', ':'] + port;
    let inner = s.skip(1);
    assert(inner =~= host + seq![']', ':'] + port);
    assert forall|i: int| 0 <= i < host.len() implies Class::IsNot(']').has(#[trigger] inner[i]) by {
        assert(inner[i] == host[i]);
    }
    assert(inner[host.len() as int] == ']');
    text::lemma_leading_is(inner, Class::IsNot(']'), host.len());
    let behind = inner.skip(host.len() as int + 1);
    assert(behind =~= seq![':'] + port);
    assert(behind.skip(1) =~= port);
    assert(inner.take(host.len() as int) =~= host);
    assert(!port.contains(':'));
}

/// An authority without a colon has no port, and an IPv6 address needs brackets.
pub proof fn law_authority_needs_a_port(s: Seq<char>, front: Seq<char>, port: Seq<char>)
    requires
        s.len() == 0 || s[0] != '[',
        notation::lacks(s, ':'),
        front.len() == 0 || front[0] != '[',
        front.contains(':'),
        notation::lacks(port, ':'),
    ensures
        http_connect::authority(s) is Err,
        http_connect::authority(front.push(':') + port) is Err,
{
    assert forall|i: int| 0 <= i < s.len() implies Class::IsNot(':').has(#[trigger] s[i]) by {}
    text::lemma_trailing_is(s, Class::IsNot(':'), s.len());
    lemma_behind_the_colon(front, port);
    let whole = front.push(':') + port;
    assert(front.len() > 0);
    assert(whole[0] == front[0]);
}

} // verus!
