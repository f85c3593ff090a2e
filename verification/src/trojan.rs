//! The Trojan wire format: credentials, requests and UDP frames.

use crate::address;
use crate::address::AddressError;
use crate::bytes;
use crate::error;
use crate::error::{Error, ErrorKind, ErrorView};
use crate::flow::{DestinationHost, DestinationView, HostView};
use crate::net::IpAddr;
use crate::proxy::Target;
use crate::text;
use core::ops::Range;
use vstd::prelude::*;
use vstd::string::*;

verus! {

pub const TROJAN_VERIFIER_BYTES: usize = 56;

const MAX_TROJAN_PASSWORD_BYTES: usize = 1024;

pub const TROJAN_CONNECT: u8 = 0x01;

pub const TROJAN_UDP_ASSOCIATE: u8 = 0x03;

/// The SHA-224 digest of a byte sequence.
pub uninterp spec fn sha224(data: Seq<u8>) -> Seq<u8>;

/// Calls `sha2::Sha224::digest`, whose result is the digest of the bytes and has
/// 28 bytes.
#[verifier::external_body]
fn sha224_digest(data: &[u8]) -> (r: Vec<u8>)
    ensures
        r@ == sha224(data@),
        r@.len() == 28,
{
    <sha2::Sha224 as sha2::Digest>::digest(data).to_vec()
}

pub open spec fn hex_byte(n: u8) -> u8 {
    if n < 10 {
        (48 + n) as u8
    } else {
        (87 + n) as u8
    }
}

/// Two lower case hexadecimal digits for each byte.
pub open spec fn hex(digest: Seq<u8>) -> Seq<u8> {
    Seq::new(
        digest.len() * 2,
        |i: int|
            if i % 2 == 0 {
                hex_byte((digest[i / 2] / 16) as u8)
            } else {
                hex_byte((digest[i / 2] % 16) as u8)
            },
    )
}

/// Writes bytes in hexadecimal.
pub fn hex_of(digest: &[u8]) -> (r: Vec<u8>)
    ensures
        r@ == hex(digest@),
{
    let mut out: Vec<u8> = Vec::new();
    let mut i: usize = 0;
    while i < digest.len()
        invariant
            i <= digest@.len(),
            out@ == hex(digest@).take(2 * i),
        decreases digest@.len() - i,
    {
        let high: u8 = digest[i] / 16;
        let low: u8 = digest[i] % 16;
        out.push(
            if high < 10 {
                48 + high
            } else {
                87 + high
            },
        );
        out.push(
            if low < 10 {
                48 + low
            } else {
                87 + low
            },
        );
        assert(hex(digest@).take(2 * i + 2) =~= hex(digest@).take(2 * i).push(
            hex(digest@)[2 * i],
        ).push(hex(digest@)[2 * i + 1]));
        i = i + 1;
    }
    assert(hex(digest@).take(2 * i) == hex(digest@));
    out
}

/// Runtime Trojan credential material.
///
/// The raw source password is converted once at the configuration boundary.
/// The SHA-224 hex verifier is credential-equivalent for Trojan authentication,
/// so it has no debug output, and `debug_text` deliberately never exposes it.
#[derive(PartialEq, Eq)]
pub struct TrojanVerifier(Vec<u8>);

impl View for TrojanVerifier {
    type V = Seq<u8>;

    closed spec fn view(&self) -> Seq<u8> {
        self.0@
    }
}

pub open spec fn is_password(password: Seq<char>) -> bool {
    1 <= text::byte_len(password) <= 1024
}

/// The verifier of a password.
pub open spec fn verifier_of(password: Seq<char>) -> Seq<u8> {
    hex(sha224(vstd::utf8::encode_utf8(password)))
}

pub open spec fn password_failure() -> ErrorView {
    error::failure(
        ErrorKind::InvalidInput,
        "Trojan password must contain 1..=1024 UTF-8 bytes"@,
    )
}

impl TrojanVerifier {
    #[verifier::type_invariant]
    spec fn wf(self) -> bool {
        self.0@.len() == 56
    }

    pub fn new(password: &str) -> (r: Result<TrojanVerifier, Error>)
        ensures
            match r {
                Ok(v) => is_password(password@) && v@ == verifier_of(password@) && v@.len() == 56,
                Err(e) => !is_password(password@) && e@ == password_failure(),
            },
    {
        let raw = password.as_bytes();
        if raw.len() == 0 || raw.len() > MAX_TROJAN_PASSWORD_BYTES {
            return Err(
                Error::new(
                    ErrorKind::InvalidInput,
                    "Trojan password must contain 1..=1024 UTF-8 bytes",
                ),
            );
        }
        let digest = sha224_digest(raw);
        Ok(TrojanVerifier(hex_of(digest.as_slice())))
    }

    pub fn as_bytes(&self) -> (r: &[u8])
        ensures
            r@ == self@,
            r@.len() == 56,
    {
        proof {
            use_type_invariant(self);
        }
        self.0.as_slice()
    }

    /// What debug output shows of the verifier.
    pub fn debug_text(&self) -> (r: String)
        ensures
            r@ == "TrojanVerifier([REDACTED])"@,
    {
        "TrojanVerifier([REDACTED])".to_owned()
    }
}

impl Clone for TrojanVerifier {
    fn clone(&self) -> (r: TrojanVerifier)
        ensures
            r@ == self@,
    {
        proof {
            use_type_invariant(self);
        }
        TrojanVerifier(bytes::to_bytes(self.0.as_slice()))
    }
}

pub open spec fn address_failure(e: AddressError) -> ErrorView {
    match e {
        AddressError::TooLong => error::failure(
            ErrorKind::InvalidInput,
            "Trojan domain is too long"@,
        ),
        AddressError::Empty => error::failure(
            ErrorKind::InvalidInput,
            "Trojan domain must not be empty"@,
        ),
    }
}

/// A target on the wire: the host, then the port.
pub open spec fn encoded_target(target: DestinationView) -> Result<Seq<u8>, ErrorView> {
    match address::encoded_host(target.host) {
        Ok(b) => Ok(b + bytes::be_bytes(target.port as nat, 2)),
        Err(e) => Err(address_failure(e)),
    }
}

/// Appends a target.
pub fn encode_target(out: &mut Vec<u8>, target: &Target) -> (r: Result<(), Error>)
    ensures
        match r {
            Ok(_) => encoded_target(target@) matches Ok(b) && final(out)@ == old(out)@ + b,
            Err(e) => encoded_target(target@) == Err::<Seq<u8>, ErrorView>(e@) && final(out)@ == old(
                out,
            )@,
        },
{
    match address::encode_host(out, &target.host) {
        Ok(_) => {
            bytes::push_be(out, target.port as u128, 2);
            assert(out@ == old(out)@ + encoded_target(target@)->Ok_0);
            Ok(())
        },
        Err(AddressError::TooLong) => Err(
            Error::new(ErrorKind::InvalidInput, "Trojan domain is too long"),
        ),
        Err(AddressError::Empty) => Err(
            Error::new(ErrorKind::InvalidInput, "Trojan domain must not be empty"),
        ),
    }
}

/// The request to connect to a target.
pub open spec fn connect_request(verifier: Seq<u8>, target: DestinationView) -> Result<
    Seq<u8>,
    ErrorView,
> {
    match encoded_target(target) {
        Ok(b) => Ok(verifier + seq![13u8, 10, 1] + b + seq![13u8, 10]),
        Err(e) => Err(e),
    }
}

/// Returned bytes or an error are what the model gives.
pub open spec fn written(r: Result<Vec<u8>, Error>, m: Result<Seq<u8>, ErrorView>) -> bool {
    match (r, m) {
        (Ok(b), Ok(v)) => b@ == v,
        (Err(e), Err(v)) => e@ == v,
        _ => false,
    }
}

pub fn encode_connect_request(verifier: &TrojanVerifier, target: &Target) -> (r: Result<
    Vec<u8>,
    Error,
>)
    ensures
        written(r, connect_request(verifier@, target@)),
{
    let mut out: Vec<u8> = Vec::new();
    bytes::push_all(&mut out, verifier.as_bytes());
    out.push(13u8);
    out.push(10u8);
    out.push(TROJAN_CONNECT);
    match encode_target(&mut out, target) {
        Err(e) => {
            return Err(e);
        },
        Ok(_) => {},
    }
    out.push(13u8);
    out.push(10u8);
    assert(out@ == connect_request(verifier@, target@)->Ok_0);
    Ok(out)
}

/// The preface of a UDP association.
pub open spec fn udp_associate_request(verifier: Seq<u8>) -> Seq<u8> {
    verifier + seq![13u8, 10, 3, 1, 0, 0, 0, 0, 0, 0, 13, 10]
}

/// Trojan UDP ASSOCIATE preface.
///
/// The official server uses the command to enter UDP forwarding and derives
/// each real destination from subsequent UDP frames. A normalized SOCKS5
/// wildcard target therefore avoids freezing the first datagram target into
/// the association lifetime.
pub fn encode_udp_associate_request(verifier: &TrojanVerifier) -> (r: Vec<u8>)
    ensures
        r@ == udp_associate_request(verifier@),
{
    let mut out: Vec<u8> = Vec::new();
    bytes::push_all(&mut out, verifier.as_bytes());
    out.push(13u8);
    out.push(10u8);
    out.push(TROJAN_UDP_ASSOCIATE);
    out.push(1u8);
    bytes::push_be(&mut out, 0, 6);
    proof {
        reveal_with_fuel(bytes::be_bytes, 7);
        assert(bytes::be_bytes(0, 6) =~= seq![0u8, 0, 0, 0, 0, 0]);
    }
    out.push(13u8);
    out.push(10u8);
    assert(out@ =~= udp_associate_request(verifier@));
    out
}

/// One datagram on the wire: target, payload length, line end, payload.
pub open spec fn udp_frame(target: DestinationView, payload: Seq<u8>) -> Result<
    Seq<u8>,
    ErrorView,
> {
    if payload.len() > 65535 {
        Err(
            error::failure(
                ErrorKind::InvalidInput,
                "Trojan UDP payload exceeds 65535-byte wire limit"@,
            ),
        )
    } else {
        match encoded_target(target) {
            Err(e) => Err(e),
            Ok(b) => Ok(b + bytes::be_bytes(payload.len(), 2) + seq![13u8, 10] + payload),
        }
    }
}

pub fn encode_udp_frame(target: &Target, payload: &[u8]) -> (r: Result<Vec<u8>, Error>)
    ensures
        written(r, udp_frame(target@, payload@)),
{
    if payload.len() > 65535 {
        return Err(
            Error::new(
                ErrorKind::InvalidInput,
                "Trojan UDP payload exceeds 65535-byte wire limit",
            ),
        );
    }
    let mut out: Vec<u8> = Vec::new();
    match encode_target(&mut out, target) {
        Err(e) => {
            return Err(e);
        },
        Ok(_) => {},
    }
    bytes::push_be(&mut out, payload.len() as u128, 2);
    out.push(13u8);
    out.push(10u8);
    bytes::push_all(&mut out, payload);
    assert(out@ =~= udp_frame(target@, payload@)->Ok_0);
    Ok(out)
}

pub open spec fn malformed(message: Seq<char>) -> ErrorView {
    error::failure(ErrorKind::InvalidData, message)
}

/// The host at the start of the bytes and how many of them it takes; nothing
/// where there are too few.
pub open spec fn host_at(d: Seq<u8>) -> Result<Option<(HostView, nat)>, ErrorView> {
    if d.len() == 0 {
        Ok(None)
    } else if d[0] == 1 {
        if d.len() < 5 {
            Ok(None)
        } else {
            Ok(Some((HostView::Ip(address::address_of(d.subrange(1, 5))), 5)))
        }
    } else if d[0] == 4 {
        if d.len() < 17 {
            Ok(None)
        } else {
            Ok(Some((HostView::Ip(address::address_of(d.subrange(1, 17))), 17)))
        }
    } else if d[0] == 3 {
        if d.len() < 2 {
            Ok(None)
        } else if d[1] == 0 {
            Err(malformed("Trojan domain address is empty"@))
        } else if d.len() < 2 + d[1] {
            Ok(None)
        } else {
            let b = d.subrange(2, 2 + d[1]);
            if vstd::utf8::valid_utf8(b) {
                Ok(Some((HostView::Domain(vstd::utf8::decode_utf8(b)), (2 + d[1]) as nat)))
            } else {
                Err(malformed("Trojan domain is not UTF-8"@))
            }
        }
    } else {
        Err(malformed("unsupported Trojan address type "@ + text::decimal(d[0] as nat)))
    }
}

/// The target at the start of the bytes.
pub open spec fn target_at(d: Seq<u8>) -> Result<Option<(DestinationView, nat)>, ErrorView> {
    match host_at(d) {
        Err(e) => Err(e),
        Ok(None) => Ok(None),
        Ok(Some((host, n))) => if d.len() < n + 2 {
            Ok(None)
        } else {
            let port = bytes::be16(d, n as int) as u16;
            if port == 0 {
                Err(malformed("invalid Trojan target: destination port must not be zero"@))
            } else {
                Ok(Some((DestinationView { host, port }, n + 2)))
            }
        },
    }
}

/// A frame that was found: where it came from, where its payload lies, and how
/// long it is.
#[verifier::ext_equal]
pub struct FrameView {
    pub source: DestinationView,
    pub start: nat,
    pub end: nat,
}

/// The frame at the start of the bytes.
pub open spec fn frame_at(d: Seq<u8>) -> Result<Option<FrameView>, ErrorView> {
    match target_at(d) {
        Err(e) => Err(e),
        Ok(None) => Ok(None),
        Ok(Some((source, n))) => if d.len() < n + 4 {
            Ok(None)
        } else if d[n as int + 2] != 13 || d[n as int + 3] != 10 {
            Err(malformed("Trojan UDP length is not followed by CRLF"@))
        } else {
            let end = n + 4 + bytes::be16(d, n as int);
            if d.len() < end {
                Ok(None)
            } else {
                Ok(Some(FrameView { source, start: n + 4, end }))
            }
        },
    }
}

#[derive(Debug, PartialEq, Eq)]
pub struct ParsedUdpFrame {
    pub source: Target,
    pub payload: Range<usize>,
    pub consumed: usize,
}

/// A found frame is the one of the model.
pub open spec fn frame_view(f: ParsedUdpFrame) -> FrameView {
    FrameView { source: f.source@, start: f.payload.start as nat, end: f.payload.end as nat }
}

fn malformed_error(message: &str) -> (r: Error)
    ensures
        r@ == malformed(message@),
{
    Error::new(ErrorKind::InvalidData, message)
}

fn parse_host(data: &[u8]) -> (r: Result<Option<(DestinationHost, usize)>, Error>)
    ensures
        match r {
            Ok(Some((h, n))) => host_at(data@) == Ok::<Option<(HostView, nat)>, ErrorView>(
                Some((h@, n as nat)),
            ) && n <= data@.len() && n <= 257,
            Ok(None) => host_at(data@) == Ok::<Option<(HostView, nat)>, ErrorView>(None),
            Err(e) => host_at(data@) == Err::<Option<(HostView, nat)>, ErrorView>(e@),
        },
{
    if data.len() == 0 {
        return Ok(None);
    }
    let kind: u8 = data[0];
    if kind == 1 {
        if data.len() < 5 {
            return Ok(None);
        }
        return Ok(Some((DestinationHost::Ip(address::read_address(&data[1..5])), 5)));
    }
    if kind == 4 {
        if data.len() < 17 {
            return Ok(None);
        }
        return Ok(Some((DestinationHost::Ip(address::read_address(&data[1..17])), 17)));
    }
    if kind == 3 {
        if data.len() < 2 {
            return Ok(None);
        }
        let length: usize = data[1] as usize;
        if length == 0 {
            return Err(malformed_error("Trojan domain address is empty"));
        }
        if data.len() < 2 + length {
            return Ok(None);
        }
        return match text::utf8_text(&data[2..2 + length]) {
            Some(domain) => Ok(Some((DestinationHost::Domain(domain.to_owned()), 2 + length))),
            None => Err(malformed_error("Trojan domain is not UTF-8")),
        };
    }
    let mut text = "unsupported Trojan address type ".to_owned();
    text::push_decimal(&mut text, kind as u64);
    Err(malformed_error(text.as_str()))
}

pub fn parse_target(data: &[u8]) -> (r: Result<Option<(Target, usize)>, Error>)
    ensures
        match r {
            Ok(Some((t, n))) => target_at(data@) == Ok::<
                Option<(DestinationView, nat)>,
                ErrorView,
            >(Some((t@, n as nat))) && n <= data@.len() && n <= 259,
            Ok(None) => target_at(data@) == Ok::<Option<(DestinationView, nat)>, ErrorView>(None),
            Err(e) => target_at(data@) == Err::<Option<(DestinationView, nat)>, ErrorView>(e@),
        },
{
    match parse_host(data) {
        Err(e) => Err(e),
        Ok(None) => Ok(None),
        Ok(Some((host, n))) => {
            if data.len() < n + 2 {
                return Ok(None);
            }
            let port: u16 = bytes::read_u16(data, n);
            if port == 0 {
                return Err(
                    malformed_error("invalid Trojan target: destination port must not be zero"),
                );
            }
            Ok(Some((Target { host, port }, n + 2)))
        },
    }
}

/// Parse one Trojan UDP frame from the beginning of `data`.
///
/// `Ok(None)` means the bytes are a valid prefix of a possible frame and more
/// TLS plaintext is required. Structural violations return `InvalidData`.
pub fn parse_udp_frame(data: &[u8]) -> (r: Result<Option<ParsedUdpFrame>, Error>)
    ensures
        match r {
            Ok(Some(f)) => {
                &&& frame_at(data@) == Ok::<Option<FrameView>, ErrorView>(Some(frame_view(f)))
                &&& f.consumed == f.payload.end
                &&& f.payload.start <= f.payload.end <= data@.len()
                &&& f.payload.start > 0
            },
            Ok(None) => frame_at(data@) == Ok::<Option<FrameView>, ErrorView>(None),
            Err(e) => frame_at(data@) == Err::<Option<FrameView>, ErrorView>(e@),
        },
{
    match parse_target(data) {
        Err(e) => Err(e),
        Ok(None) => Ok(None),
        Ok(Some((source, n))) => {
            if data.len() < n + 4 {
                return Ok(None);
            }
            let length: usize = bytes::read_u16(data, n) as usize;
            if data[n + 2] != 13 || data[n + 3] != 10 {
                return Err(malformed_error("Trojan UDP length is not followed by CRLF"));
            }
            let start: usize = n + 4;
            let end: usize = start + length;
            if data.len() < end {
                return Ok(None);
            }
            Ok(Some(ParsedUdpFrame { source, payload: start..end, consumed: end }))
        },
    }
}

/// The notation of an encodable host: how long it is, and that it is read back
/// with anything behind it, and not read with any less.
proof fn lemma_host_at(host: HostView, rest: Seq<u8>)
    requires
        address::encoded_host(host) is Ok,
    ensures
        ({
            let b = address::encoded_host(host)->Ok_0;
            &&& 1 <= b.len() <= 257
            &&& host_at(b + rest) == Ok::<Option<(HostView, nat)>, ErrorView>(Some((host, b.len())))
            &&& forall|k: int|
                0 <= k < b.len() ==> host_at(#[trigger] b.take(k)) == Ok::<
                    Option<(HostView, nat)>,
                    ErrorView,
                >(None)
        }),
{
    let b = address::encoded_host(host)->Ok_0;
    match host {
        HostView::Ip(a) => {
            address::lemma_address_round_trip(a);
            match a {
                IpAddr::V4(n) => {
                    assert((b + rest).subrange(1, 5) =~= bytes::be_bytes(n as nat, 4));
                },
                IpAddr::V6(n) => {
                    assert((b + rest).subrange(1, 17) =~= bytes::be_bytes(n as nat, 16));
                },
            }
            assert forall|k: int| 0 <= k < b.len() implies host_at(#[trigger] b.take(k)) == Ok::<
                Option<(HostView, nat)>,
                ErrorView,
            >(None) by {
                if k > 0 {
                    assert(b.take(k)[0] == b[0]);
                }
            }
        },
        HostView::Domain(d) => {
            let e = vstd::utf8::encode_utf8(d);
            vstd::utf8::encode_utf8_valid_utf8(d);
            vstd::utf8::encode_utf8_decode_utf8(d);
            assert((b + rest).subrange(2, (2 + e.len()) as int) =~= e);
            assert forall|k: int| 0 <= k < b.len() implies host_at(#[trigger] b.take(k)) == Ok::<
                Option<(HostView, nat)>,
                ErrorView,
            >(None) by {
                if k > 0 {
                    assert(b.take(k)[0] == b[0]);
                }
                if k > 1 {
                    assert(b.take(k)[1] == b[1]);
                }
            }
        },
    }
}

/// A written datagram is read back from the start of the stream, with its target
/// and payload, whatever follows it; what follows starts where it ends.
pub proof fn law_written_frame_is_read_back(
    target: DestinationView,
    payload: Seq<u8>,
    rest: Seq<u8>,
)
    requires
        target.port != 0,
        udp_frame(target, payload) is Ok,
    ensures
        ({
            let f = udp_frame(target, payload)->Ok_0;
            &&& frame_at(f + rest) matches Ok(Some(v)) && {
                &&& v.source == target
                &&& (f + rest).subrange(v.start as int, v.end as int) == payload
                &&& v.end == f.len()
                &&& (f + rest).skip(v.end as int) == rest
            }
        }),
{
    let f = udp_frame(target, payload)->Ok_0;
    let h = address::encoded_host(target.host)->Ok_0;
    let p = bytes::be_bytes(target.port as nat, 2);
    let l = bytes::be_bytes(payload.len(), 2);
    bytes::lemma_be16(target.port as nat);
    bytes::lemma_be16(payload.len());
    let tail = p + l + seq![13u8, 10] + payload + rest;
    assert(f + rest =~= h + tail);
    lemma_host_at(target.host, tail);
    let all = f + rest;
    let n = h.len() as int;
    assert(all[n] == p[0] && all[n + 1] == p[1]);
    assert(all[n + 2] == l[0] && all[n + 3] == l[1]);
    assert(all[n + 4] == 13 && all[n + 5] == 10);
    assert(bytes::be16(all, n) == target.port);
    assert(bytes::be16(all, n + 2) == payload.len());
    assert(all.subrange(n + 6, n + 6 + payload.len()) =~= payload);
    assert(all.skip(f.len() as int) =~= rest);
}

/// Any part of a written datagram that is not all of it asks for more.
pub proof fn law_partial_frame_asks_for_more(
    target: DestinationView,
    payload: Seq<u8>,
    k: int,
)
    requires
        target.port != 0,
        udp_frame(target, payload) is Ok,
        0 <= k < udp_frame(target, payload)->Ok_0.len(),
    ensures
        frame_at(udp_frame(target, payload)->Ok_0.take(k)) == Ok::<Option<FrameView>, ErrorView>(
            None,
        ),
{
    let f = udp_frame(target, payload)->Ok_0;
    let h = address::encoded_host(target.host)->Ok_0;
    let p = bytes::be_bytes(target.port as nat, 2);
    let l = bytes::be_bytes(payload.len(), 2);
    bytes::lemma_be16(target.port as nat);
    bytes::lemma_be16(payload.len());
    let n = h.len() as int;
    let part = f.take(k);
    if k < n {
        lemma_host_at(target.host, Seq::empty());
        assert(part =~= h.take(k));
    } else {
        let tail = part.skip(n);
        assert(part =~= h + tail);
        lemma_host_at(target.host, tail);
        if k >= n + 2 {
            assert(part[n] == f[n] && part[n + 1] == f[n + 1]);
            assert(f[n] == p[0] && f[n + 1] == p[1]);
            if k >= n + 6 {
                assert(part[n + 2] == l[0] && part[n + 3] == l[1]);
                assert(part[n + 4] == 13 && part[n + 5] == 10);
                assert(bytes::be16(part, n + 2) == payload.len());
            }
        }
    }
}

proof fn lemma_host_is_final(d: Seq<u8>, more: Seq<u8>)
    ensures
        host_at(d) matches Err(e) ==> host_at(d + more) == Err::<
            Option<(HostView, nat)>,
            ErrorView,
        >(e),
        host_at(d) matches Ok(Some(found)) ==> host_at(d + more) == Ok::<
            Option<(HostView, nat)>,
            ErrorView,
        >(Some(found)) && found.1 <= d.len(),
{
    let all = d + more;
    if d.len() > 0 {
        assert(all[0] == d[0]);
        if d.len() >= 2 {
            assert(all[1] == d[1]);
            if d.len() >= 2 + d[1] {
                assert(all.subrange(2, 2 + d[1]) =~= d.subrange(2, 2 + d[1]));
            }
        }
        if d.len() >= 5 {
            assert(all.subrange(1, 5) =~= d.subrange(1, 5));
        }
        if d.len() >= 17 {
            assert(all.subrange(1, 17) =~= d.subrange(1, 17));
        }
    }
}

/// A verdict is final: what is found at the start of the bytes, a frame or an error,
/// stays the same whatever arrives behind it.
pub proof fn law_verdicts_are_final(d: Seq<u8>, more: Seq<u8>)
    ensures
        frame_at(d) matches Err(e) ==> frame_at(d + more) == Err::<Option<FrameView>, ErrorView>(e),
        frame_at(d) matches Ok(Some(f)) ==> frame_at(d + more) == Ok::<
            Option<FrameView>,
            ErrorView,
        >(Some(f)),
{
    let all = d + more;
    lemma_host_is_final(d, more);
    if let Ok(Some((_, n))) = host_at(d) {
        if d.len() >= n + 2 {
            assert(all[n as int] == d[n as int] && all[n as int + 1] == d[n as int + 1]);
        }
        if d.len() >= n + 6 {
            assert(all[n as int + 2] == d[n as int + 2] && all[n as int + 3] == d[n as int + 3]);
            assert(all[n as int + 4] == d[n as int + 4] && all[n as int + 5] == d[n as int + 5]);
        }
    }
}

/// A target in front of anything is read back, to its last byte.
proof fn lemma_target_at(target: DestinationView, rest: Seq<u8>)
    requires
        target.port != 0,
        encoded_target(target) is Ok,
    ensures
        target_at(encoded_target(target)->Ok_0 + rest) == Ok::<
            Option<(DestinationView, nat)>,
            ErrorView,
        >(Some((target, encoded_target(target)->Ok_0.len()))),
{
    let h = address::encoded_host(target.host)->Ok_0;
    let p = bytes::be_bytes(target.port as nat, 2);
    bytes::lemma_be16(target.port as nat);
    let all = encoded_target(target)->Ok_0 + rest;
    assert(all =~= h + (p + rest));
    lemma_host_at(target.host, p + rest);
    let n = h.len() as int;
    assert(all[n] == p[0] && all[n + 1] == p[1]);
}

/// A request to connect is read back: behind the verifier come a line end, the command
/// for a stream and the target, and the line end behind the target is the end of it.
pub proof fn law_connect_request_is_read_back(verifier: Seq<u8>, target: DestinationView)
    requires
        target.port != 0,
        address::encoded_host(target.host) is Ok,
    ensures
        connect_request(verifier, target) matches Ok(b) && {
            let rest = b.skip(verifier.len() as int);
            &&& verifier.is_prefix_of(b)
            &&& rest.len() > 3
            &&& rest[0] == 13 && rest[1] == 10 && rest[2] == 1
            &&& target_at(rest.skip(3)) matches Ok(Some((read, n))) && {
                &&& read == target
                &&& rest.skip(3 + n as int) == seq![13u8, 10]
            }
        },
{
    let t = encoded_target(target)->Ok_0;
    let b = connect_request(verifier, target)->Ok_0;
    let rest = b.skip(verifier.len() as int);
    lemma_target_at(target, seq![13u8, 10]);
    assert(rest =~= seq![13u8, 10, 1] + t + seq![13u8, 10]);
    assert(rest.skip(3) =~= t + seq![13u8, 10]);
    assert(rest.skip(3 + t.len() as int) =~= seq![13u8, 10]);
}

/// A target that cannot be written is refused, and nothing else is: a domain must have
/// one byte at least and 255 at most.
pub proof fn law_only_unwritable_targets_are_refused(
    verifier: Seq<u8>,
    target: DestinationView,
    payload: Seq<u8>,
)
    requires
        payload.len() <= 65535,
    ensures
        connect_request(verifier, target) is Ok <==> (target.host matches HostView::Domain(d)
            ==> 1 <= text::byte_len(d) <= 255),
        udp_frame(target, payload) is Ok <==> connect_request(verifier, target) is Ok,
{
}

/// A request for datagrams differs from one for a stream in its command, and names the
/// address that stands for any.
pub proof fn law_datagram_request_names_no_target(verifier: Seq<u8>)
    ensures
        ({
            let b = udp_associate_request(verifier);
            let rest = b.skip(verifier.len() as int);
            &&& verifier.is_prefix_of(b)
            &&& rest.len() > 3
            &&& rest[0] == 13 && rest[1] == 10 && rest[2] == 3
            &&& host_at(rest.skip(3)) == Ok::<Option<(HostView, nat)>, ErrorView>(
                Some((HostView::Ip(IpAddr::V4(0)), 5)),
            )
            &&& rest.skip(8) == seq![0u8, 0, 13, 10]
        }),
{
    let b = udp_associate_request(verifier);
    let rest = b.skip(verifier.len() as int);
    assert(rest =~= seq![13u8, 10, 3, 1, 0, 0, 0, 0, 0, 0, 13, 10]);
    let d = rest.skip(3);
    address::lemma_address_round_trip(IpAddr::V4(0));
    reveal_with_fuel(bytes::be_bytes, 5);
    assert(d.subrange(1, 5) =~= bytes::be_bytes(0, 4));
    assert(rest.skip(8) =~= seq![0u8, 0, 13, 10]);
}

/// The value of a digit.
pub open spec fn hex_value(c: u8) -> int {
    if 48 <= c <= 57 {
        c - 48
    } else {
        c - 87
    }
}

/// The hexadecimal notation denotes its bytes, two digits each, with lower case
/// letters.
pub proof fn law_hex_denotes_its_bytes(digest: Seq<u8>, i: int)
    requires
        0 <= i < digest.len(),
    ensures
        hex(digest).len() == 2 * digest.len(),
        digest[i] == 16 * hex_value(hex(digest)[2 * i]) + hex_value(hex(digest)[2 * i + 1]),
        forall|k: int|
            0 <= k < hex(digest).len() ==> {
                let c = #[trigger] hex(digest)[k];
                48 <= c <= 57 || 97 <= c <= 102
            },
{
    assert((2 * i) / 2 == i && (2 * i) % 2 == 0 && (2 * i + 1) / 2 == i && (2 * i + 1) % 2 == 1);
}

} // verus!
