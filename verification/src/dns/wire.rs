//! DNS messages: address queries and their responses.

use crate::bytes;
use crate::dns;
use crate::dns::{AnswerView, DnsAnswer, DnsError, DnsErrorKind, DnsErrorView, DnsQuery};
use crate::domain_set;
use crate::net::IpAddr;
use crate::text;
use crate::text::Class;
use crate::time::Duration;
use vstd::prelude::*;
use vstd::string::*;

verus! {

pub const DNS_HEADER_BYTES: usize = 12;

pub const MAX_DNS_MESSAGE_BYTES: usize = 65535;

const MAX_DNS_ANSWER_RECORDS: usize = 512;

const MAX_DNS_NAME_POINTER_HOPS: usize = 32;

const MAX_DNS_ALIAS_HOPS: usize = 16;

const CLASS_IN: u16 = 1;

const TYPE_CNAME: u16 = 5;

#[derive(Clone, Copy, Debug, PartialEq, Eq, Structural)]
pub enum AddressRecordType {
    A,
    Aaaa,
}

impl AddressRecordType {
    pub open spec fn spec_code(self) -> u16 {
        match self {
            AddressRecordType::A => 1,
            AddressRecordType::Aaaa => 28,
        }
    }

    pub fn code(self) -> (r: u16)
        ensures
            r == self.spec_code(),
    {
        match self {
            AddressRecordType::A => 1,
            AddressRecordType::Aaaa => 28,
        }
    }
}

pub open spec fn invalid(message: Seq<char>) -> DnsErrorView {
    dns::dns_failure(DnsErrorKind::InvalidResponse, message)
}

/// ASCII bytes as characters.
pub open spec fn ascii_text(b: Seq<u8>) -> Seq<char> {
    Seq::new(b.len(), |i: int| b[i] as char)
}

pub open spec fn is_ascii_bytes(b: Seq<u8>) -> bool {
    forall|i: int| 0 <= i < b.len() ==> #[trigger] b[i] < 128
}

/// The labels of the name at `at`, in lower case, and the offset behind it.
///
/// A length byte below 64 starts a label, zero ends the name, and a byte of at
/// least 192 starts a two-byte pointer to an earlier offset, where the name goes
/// on. `hops` counts the pointers and `used` the characters of the name so far.
pub open spec fn labels_at(m: Seq<u8>, at: nat, hops: nat, used: nat, first: bool) -> Result<
    (Seq<Seq<char>>, nat),
    Seq<char>,
>
    decreases 33 - hops, m.len() - at,
{
    if at >= m.len() {
        Err("DNS name is truncated"@)
    } else {
        let length = m[at as int] as nat;
        if length >= 192 {
            if at + 1 >= m.len() {
                Err("DNS compression pointer is truncated"@)
            } else {
                let target = ((length - 192) * 256 + m[at as int + 1]) as nat;
                if target >= m.len() {
                    Err("DNS compression pointer is out of bounds"@)
                } else if target >= at {
                    Err("DNS compression pointer does not point backward"@)
                } else if hops >= 32 {
                    Err("DNS compression pointer chain exceeds the bound"@)
                } else {
                    match labels_at(m, target, hops + 1, used, first) {
                        Ok((labels, _)) => Ok((labels, at + 2)),
                        Err(e) => Err(e),
                    }
                }
            }
        } else if length >= 64 {
            Err("DNS name uses an unsupported label encoding"@)
        } else if length == 0 {
            Ok((Seq::empty(), at + 1))
        } else if at + 1 + length > m.len() {
            Err("DNS label is truncated"@)
        } else {
            let b = m.subrange(at as int + 1, (at + 1 + length) as int);
            let total = used + length + if first {
                0nat
            } else {
                1nat
            };
            if !vstd::utf8::valid_utf8(b) {
                Err("DNS response name is not UTF-8/ASCII"@)
            } else if !is_ascii_bytes(b) {
                Err("DNS response name is not ASCII"@)
            } else if total > 253 {
                Err("DNS decoded name exceeds 253 bytes"@)
            } else {
                match labels_at(m, at + 1 + length, hops, total, false) {
                    Ok((labels, next)) => Ok((seq![text::lower(ascii_text(b))] + labels, next)),
                    Err(e) => Err(e),
                }
            }
        }
    }
}

/// The name at `at` and the offset behind it.
pub open spec fn name_at(m: Seq<u8>, at: nat) -> Result<(Seq<char>, nat), Seq<char>> {
    match labels_at(m, at, 0, 0, true) {
        Err(e) => Err(e),
        Ok((labels, next)) => if labels.len() == 0 {
            Err("DNS response contains an empty root name"@)
        } else {
            let name = domain_set::normalized(text::join(labels, '.'));
            if domain_set::valid(name) {
                Ok((name, next))
            } else {
                Err("DNS response contains an invalid hostname"@)
            }
        },
    }
}

proof fn lemma_ascii_is_utf8(b: Seq<u8>)
    requires
        is_ascii_bytes(b),
    ensures
        vstd::utf8::valid_utf8(b),
{
    let s = ascii_text(b);
    assert forall|i: int| 0 <= i < s.len() implies '\u{0}' <= #[trigger] s[i] <= '\u{7f}' by {
        assert(b[i] < 128);
    }
    vstd::utf8::is_ascii_chars_encode_utf8(s);
    vstd::utf8::encode_utf8_valid_utf8(s);
    assert forall|i: int| 0 <= i < b.len() implies vstd::utf8::encode_utf8(s)[i] == b[i] by {
        assert(b[i] < 128);
        assert(s[i] as u8 == b[i]);
    }
    assert(vstd::utf8::encode_utf8(s) =~= b);
}

/// Whether all bytes are ASCII.
pub fn is_ascii_bytes_of(b: &[u8]) -> (r: bool)
    ensures
        r == is_ascii_bytes(b@),
{
    let mut i: usize = 0;
    while i < b.len()
        invariant
            i <= b@.len(),
            forall|j: int| 0 <= j < i ==> #[trigger] b@[j] < 128,
        decreases b@.len() - i,
    {
        if b[i] >= 128 {
            assert(b@[i as int] >= 128);
            return false;
        }
        i = i + 1;
    }
    true
}

/// ASCII bytes as characters.
pub fn ascii_text_of(b: &[u8]) -> (r: Vec<char>)
    ensures
        r@ == ascii_text(b@),
{
    let mut out: Vec<char> = Vec::new();
    let mut i: usize = 0;
    while i < b.len()
        invariant
            i <= b@.len(),
            out@ == ascii_text(b@).take(i as int),
        decreases b@.len() - i,
    {
        out.push(b[i] as char);
        i = i + 1;
        assert(ascii_text(b@).take(i as int) == ascii_text(b@).take(i - 1).push(
            ascii_text(b@)[i - 1],
        ));
    }
    assert(ascii_text(b@).take(i as int) == ascii_text(b@));
    out
}

/// What `labels_at` gives with labels put in front of it.
pub open spec fn after(
    done: Seq<Seq<char>>,
    resume: Option<nat>,
    rest: Result<(Seq<Seq<char>>, nat), Seq<char>>,
) -> Result<(Seq<Seq<char>>, nat), Seq<char>> {
    match rest {
        Err(e) => Err(e),
        Ok((labels, next)) => Ok(
            (
                done + labels,
                match resume {
                    Some(n) => n,
                    None => next,
                },
            ),
        ),
    }
}

pub open spec fn optional_nat(n: Option<usize>) -> Option<nat> {
    match n {
        Some(x) => Some(x as nat),
        None => None,
    }
}

fn invalid_response(message: &str) -> (r: DnsError)
    ensures
        r@ == invalid(message@),
{
    DnsError::new(DnsErrorKind::InvalidResponse, message)
}

/// Reads the name at `at`; gives it with the offset behind it.
pub fn decode_name(m: &[u8], at: usize) -> (r: Result<(String, usize), DnsError>)
    ensures
        match r {
            Ok((name, next)) => name_at(m@, at as nat) == Ok::<_, Seq<char>>(
                (name@, next as nat),
            ) && dns::is_name(name@) && next <= m@.len() && at < next,
            Err(e) => name_at(m@, at as nat) matches Err(t) && e@ == invalid(t),
        },
{
    let mut cursor: usize = at;
    let mut resume: Option<usize> = None;
    let mut joined: Vec<char> = Vec::new();
    let mut empty = true;
    let mut hops: usize = 0;
    let mut used: usize = 0;
    let ghost mut done: Seq<Seq<char>> = Seq::empty();
    let ghost whole = labels_at(m@, at as nat, 0, 0, true);
    assert(whole matches Ok((l, n)) ==> Seq::<Seq<char>>::empty() + l == l);
    let mut next: usize = 0;
    loop
        invariant
            hops <= 32,
            used <= 253,
            joined@ == text::join(done, '.'),
            empty == (done.len() == 0),
            whole == labels_at(m@, at as nat, 0, 0, true),
            resume is Some ==> at < resume.unwrap() <= m@.len(),
            resume is None ==> at <= cursor,
            after(
                done,
                optional_nat(resume),
                labels_at(m@, cursor as nat, hops as nat, used as nat, empty),
            ) == whole,
        ensures
            whole == Ok::<(Seq<Seq<char>>, nat), Seq<char>>((done, next as nat)),
            joined@ == text::join(done, '.'),
            empty == (done.len() == 0),
            at < next <= m@.len(),
        decreases 33 - hops, m@.len() - cursor,
    {
        if cursor >= m.len() {
            return Err(invalid_response("DNS name is truncated"));
        }
        let length: u8 = m[cursor];
        if length >= 192 {
            if cursor + 1 >= m.len() {
                return Err(invalid_response("DNS compression pointer is truncated"));
            }
            let target: usize = (length - 192) as usize * 256 + m[cursor + 1] as usize;
            if target >= m.len() {
                return Err(invalid_response("DNS compression pointer is out of bounds"));
            }
            if target >= cursor {
                return Err(invalid_response("DNS compression pointer does not point backward"));
            }
            if hops >= MAX_DNS_NAME_POINTER_HOPS {
                return Err(invalid_response("DNS compression pointer chain exceeds the bound"));
            }
            if resume.is_none() {
                resume = Some(cursor + 2);
            }
            cursor = target;
            hops = hops + 1;
        } else if length >= 64 {
            return Err(invalid_response("DNS name uses an unsupported label encoding"));
        } else if length == 0 {
            next = match resume {
                Some(n) => n,
                None => cursor + 1,
            };
            assert(done + Seq::<Seq<char>>::empty() == done);
            break;
        } else {
            if length as usize > m.len() - cursor - 1 {
                return Err(invalid_response("DNS label is truncated"));
            }
            let end: usize = cursor + 1 + length as usize;
            let b = &m[cursor + 1..end];
            if !is_ascii_bytes_of(b) {
                match core::str::from_utf8(b) {
                    Ok(_) => {
                        return Err(invalid_response("DNS response name is not ASCII"));
                    },
                    Err(_) => {
                        return Err(invalid_response("DNS response name is not UTF-8/ASCII"));
                    },
                }
            }
            proof {
                lemma_ascii_is_utf8(b@);
            }
            let total: usize = used + length as usize + if empty {
                0
            } else {
                1
            };
            if total > 253 {
                return Err(invalid_response("DNS decoded name exceeds 253 bytes"));
            }
            let label = text::lower_of(ascii_text_of(b).as_slice());
            let ghost before = joined@;
            if !empty {
                joined.push('.');
            }
            push_chars(&mut joined, label.as_slice());
            proof {
                let rest = labels_at(m@, end as nat, hops as nat, total as nat, false);
                if let Ok((l, n)) = rest {
                    assert(done.push(label@) + l == done + (seq![label@] + l));
                }
                assert(done.push(label@).drop_last() == done);
                assert(done.push(label@).last() == label@);
                assert(joined@ == text::join(done.push(label@), '.'));
                done = done.push(label@);
            }
            empty = false;
            used = total;
            cursor = end;
        }
    }
    if empty {
        return Err(invalid_response("DNS response contains an empty root name"));
    }
    match dns::normalize_name(joined.as_slice()) {
        Ok(name) => Ok((name, next)),
        Err(_) => Err(invalid_response("DNS response contains an invalid hostname")),
    }
}

/// Appends all characters of a slice.
fn push_chars(out: &mut Vec<char>, s: &[char])
    ensures
        final(out)@ == old(out)@ + s@,
{
    let ghost start = out@;
    let mut i: usize = 0;
    while i < s.len()
        invariant
            i <= s@.len(),
            out@ == start + s@.take(i as int),
        decreases s@.len() - i,
    {
        out.push(s[i]);
        i = i + 1;
        assert(s@.take(i as int) == s@.take(i - 1).push(s@[i - 1]));
    }
    assert(s@.take(i as int) == s@);
}


/// A resource record of a response: whose it is, and where its data lies.
#[derive(Debug)]
pub struct ResourceRecord {
    owner: String,
    rr_type: u16,
    class: u16,
    ttl: Duration,
    start: usize,
    end: usize,
}

#[verifier::ext_equal]
pub struct RecordView {
    pub owner: Seq<char>,
    pub rr_type: nat,
    pub class: nat,
    pub ttl: Duration,
    pub start: nat,
    pub end: nat,
}

impl View for ResourceRecord {
    type V = RecordView;

    closed spec fn view(&self) -> RecordView {
        RecordView {
            owner: self.owner@,
            rr_type: self.rr_type as nat,
            class: self.class as nat,
            ttl: self.ttl,
            start: self.start as nat,
            end: self.end as nat,
        }
    }
}

pub open spec fn record_views(v: Seq<ResourceRecord>) -> Seq<RecordView> {
    Seq::new(v.len(), |i: int| v[i]@)
}

/// The record at `at`: a name, type, class, time to live, length and data.
pub open spec fn record_at(m: Seq<u8>, at: nat) -> Result<RecordView, Seq<char>> {
    match name_at(m, at) {
        Err(e) => Err(e),
        Ok((owner, next)) => if next + 10 > m.len() {
            Err("DNS message is truncated"@)
        } else {
            let n = next as int;
            let end = next + 10 + bytes::be16(m, n + 8);
            if end > m.len() {
                Err("DNS resource record data is truncated"@)
            } else {
                Ok(
                    RecordView {
                        owner,
                        rr_type: bytes::be16(m, n),
                        class: bytes::be16(m, n + 2),
                        ttl: Duration::spec_from_secs(
                            bytes::be_value(m.subrange(n + 4, n + 8)) as u64,
                        ),
                        start: next + 10,
                        end,
                    },
                )
            }
        },
    }
}

/// `n` records, the first of them at `at`.
pub open spec fn records_at(m: Seq<u8>, at: nat, n: nat) -> Result<Seq<RecordView>, Seq<char>>
    decreases n,
{
    if n == 0 {
        Ok(Seq::empty())
    } else {
        match record_at(m, at) {
            Err(e) => Err(e),
            Ok(record) => match records_at(m, record.end, (n - 1) as nat) {
                Err(e) => Err(e),
                Ok(rest) => Ok(seq![record] + rest),
            },
        }
    }
}

/// The names that answer the query so far, and the shortest time to live of the
/// aliases that led to them.
#[verifier::ext_equal]
pub struct AliasView {
    pub names: Set<Seq<char>>,
    pub ttl: Option<Duration>,
    pub changed: bool,
}

/// An alias record of an accepted name makes its target an accepted name.
pub open spec fn alias_step(m: Seq<u8>, st: AliasView, r: RecordView) -> Result<
    AliasView,
    Seq<char>,
> {
    if r.class != 1 || r.rr_type != 5 || !st.names.contains(r.owner) {
        Ok(st)
    } else {
        match name_at(m, r.start) {
            Err(e) => Err(e),
            Ok((target, next)) => if next != r.end {
                Err("DNS CNAME record has trailing or malformed data"@)
            } else {
                Ok(
                    AliasView {
                        names: st.names.insert(target),
                        ttl: Some(dns::shortest(st.ttl, r.ttl)),
                        changed: st.changed || !st.names.contains(target),
                    },
                )
            },
        }
    }
}

/// All records once, in order.
pub open spec fn alias_pass(m: Seq<u8>, st: AliasView, records: Seq<RecordView>) -> Result<
    AliasView,
    Seq<char>,
>
    decreases records.len(),
{
    if records.len() == 0 {
        Ok(st)
    } else {
        match alias_pass(m, st, records.drop_last()) {
            Err(e) => Err(e),
            Ok(next) => alias_step(m, next, records.last()),
        }
    }
}

/// Passes over the records until one adds no name, at most `rounds` of them; more
/// than seventeen names are refused.
pub open spec fn aliases(
    m: Seq<u8>,
    names: Set<Seq<char>>,
    ttl: Option<Duration>,
    records: Seq<RecordView>,
    rounds: nat,
) -> Result<(Set<Seq<char>>, Option<Duration>), Seq<char>>
    decreases rounds,
{
    if rounds == 0 {
        Ok((names, ttl))
    } else {
        match alias_pass(m, AliasView { names, ttl, changed: false }, records) {
            Err(e) => Err(e),
            Ok(st) => if !st.changed {
                Ok((st.names, st.ttl))
            } else if st.names.len() > 17 {
                Err("DNS CNAME chain exceeds the configured bound"@)
            } else {
                aliases(m, st.names, st.ttl, records, (rounds - 1) as nat)
            },
        }
    }
}

/// The address that a record holds.
pub open spec fn record_address(m: Seq<u8>, r: RecordView, kind: AddressRecordType) -> Result<
    IpAddr,
    Seq<char>,
> {
    let data = m.subrange(r.start as int, r.end as int);
    match kind {
        AddressRecordType::A => if data.len() != 4 {
            Err("DNS A record has invalid RDLENGTH"@)
        } else {
            Ok(IpAddr::V4(bytes::be_value(data) as u32))
        },
        AddressRecordType::Aaaa => if data.len() != 16 {
            Err("DNS AAAA record has invalid RDLENGTH"@)
        } else {
            Ok(IpAddr::V6(bytes::be_value(data) as u128))
        },
    }
}

/// The addresses that the accepted names have, each once, and the shortest time
/// to live of all that was used.
pub open spec fn collected(
    m: Seq<u8>,
    names: Set<Seq<char>>,
    ttl: Option<Duration>,
    kind: AddressRecordType,
    records: Seq<RecordView>,
) -> Result<(Seq<IpAddr>, Option<Duration>), Seq<char>>
    decreases records.len(),
{
    if records.len() == 0 {
        Ok((Seq::empty(), ttl))
    } else {
        match collected(m, names, ttl, kind, records.drop_last()) {
            Err(e) => Err(e),
            Ok((list, t)) => {
                let r = records.last();
                if r.class != 1 || r.rr_type != kind.spec_code() || !names.contains(r.owner) {
                    Ok((list, t))
                } else {
                    match record_address(m, r, kind) {
                        Err(e) => Err(e),
                        Ok(a) => Ok(
                            (
                                if list.contains(a) {
                                    list
                                } else {
                                    list.push(a)
                                },
                                Some(dns::shortest(t, r.ttl)),
                            ),
                        ),
                    }
                }
            },
        }
    }
}

/// What the records of a response answer to a query.
pub open spec fn resolved(
    m: Seq<u8>,
    name: Seq<char>,
    kind: AddressRecordType,
    records: Seq<RecordView>,
) -> Result<AnswerView, DnsErrorView> {
    match aliases(m, set![name], None, records, 16) {
        Err(e) => Err(invalid(e)),
        Ok((names, ttl)) => match collected(m, names, ttl, kind, records) {
            Err(e) => Err(invalid(e)),
            Ok((list, t)) => dns::answer(list, t),
        },
    }
}

/// What a response answers to a query: it must carry the query's identifier and
/// question, report no error, and be complete.
pub open spec fn response(id: u16, name: Seq<char>, kind: AddressRecordType, m: Seq<u8>) -> Result<
    AnswerView,
    DnsErrorView,
> {
    if m.len() < 12 || m.len() > 65535 {
        Err(invalid("DNS response size is outside the supported bounds"@))
    } else if bytes::be16(m, 0) != id {
        Err(invalid("DNS response transaction ID does not match query"@))
    } else if m[2] < 128 {
        Err(invalid("DNS response is missing the response flag"@))
    } else if m[2] / 2 % 2 == 1 {
        Err(dns::dns_failure(DnsErrorKind::ResolverFailure, "DNS response is truncated"@))
    } else if m[3] % 16 == 3 {
        Err(
            dns::dns_failure(
                DnsErrorKind::NoRecords,
                "DNS upstream reported NXDOMAIN for "@ + name,
            ),
        )
    } else if m[3] % 16 != 0 {
        Err(
            dns::dns_failure(
                DnsErrorKind::ResolverFailure,
                "DNS upstream returned response code "@ + text::decimal((m[3] % 16) as nat)
                    + " for "@ + name,
            ),
        )
    } else if bytes::be16(m, 4) != 1 {
        Err(invalid("DNS response must contain exactly one question"@))
    } else if bytes::be16(m, 6) > 512 {
        Err(invalid("DNS response answer count exceeds the configured bound"@))
    } else {
        match name_at(m, 12) {
            Err(e) => Err(invalid(e)),
            Ok((question, next)) => if question != name {
                Err(invalid("DNS response question name does not match query"@))
            } else if next + 4 > m.len() {
                Err(invalid("DNS message is truncated"@))
            } else if bytes::be16(m, next as int) != kind.spec_code() || bytes::be16(
                m,
                next as int + 2,
            ) != 1 {
                Err(invalid("DNS response question type/class does not match query"@))
            } else {
                match records_at(m, next + 4, bytes::be16(m, 6)) {
                    Err(e) => Err(invalid(e)),
                    Ok(records) => resolved(m, name, kind, records),
                }
            },
        }
    }
}

fn read_record(m: &[u8], at: usize) -> (r: Result<ResourceRecord, DnsError>)
    requires
        m@.len() <= 65535,
    ensures
        match r {
            Ok(record) => record_at(m@, at as nat) == Ok::<RecordView, Seq<char>>(record@)
                && record@.start <= record@.end <= m@.len(),
            Err(e) => record_at(m@, at as nat) matches Err(t) && e@ == invalid(t),
        },
{
    let (owner, next) = match decode_name(m, at) {
        Ok(found) => found,
        Err(e) => {
            return Err(e);
        },
    };
    if next + 10 > m.len() {
        return Err(invalid_response("DNS message is truncated"));
    }
    let rr_type: u16 = bytes::read_u16(m, next);
    let class: u16 = bytes::read_u16(m, next + 2);
    let ttl_bytes = &m[next + 4..next + 8];
    let seconds: u128 = bytes::read_be(ttl_bytes);
    proof {
        bytes::lemma_be_value_bound(ttl_bytes@);
        bytes::lemma_pow256();
    }
    let ttl = Duration::from_secs(seconds as u64);
    let length: usize = bytes::read_u16(m, next + 8) as usize;
    let start: usize = next + 10;
    let end: usize = start + length;
    if end > m.len() {
        return Err(invalid_response("DNS resource record data is truncated"));
    }
    Ok(ResourceRecord { owner, rr_type, class, ttl, start, end })
}

/// Where every record lies inside the message.
pub open spec fn in_bounds(m: Seq<u8>, records: Seq<RecordView>) -> bool {
    forall|i: int|
        0 <= i < records.len() ==> (#[trigger] records[i]).start <= records[i].end <= m.len()
}

fn read_records(m: &[u8], at: usize, count: usize) -> (r: Result<Vec<ResourceRecord>, DnsError>)
    requires
        m@.len() <= 65535,
    ensures
        match r {
            Ok(records) => records_at(m@, at as nat, count as nat) == Ok::<
                Seq<RecordView>,
                Seq<char>,
            >(record_views(records@)) && in_bounds(m@, record_views(records@)),
            Err(e) => records_at(m@, at as nat, count as nat) matches Err(t) && e@ == invalid(t),
        },
{
    let mut out: Vec<ResourceRecord> = Vec::new();
    let mut offset: usize = at;
    let mut i: usize = 0;
    let ghost whole = records_at(m@, at as nat, count as nat);
    assert(whole matches Ok(w) ==> record_views(out@) + w =~= w);
    while i < count
        invariant
            i <= count,
            m@.len() <= 65535,
            whole == records_at(m@, at as nat, count as nat),
            in_bounds(m@, record_views(out@)),
            whole == (match records_at(m@, offset as nat, (count - i) as nat) {
                Err(e) => Err::<Seq<RecordView>, Seq<char>>(e),
                Ok(rest) => Ok(record_views(out@) + rest),
            }),
        decreases count - i,
    {
        match read_record(m, offset) {
            Err(e) => {
                return Err(e);
            },
            Ok(record) => {
                offset = record.end;
                let ghost done = record_views(out@);
                let ghost v = record@;
                out.push(record);
                proof {
                    assert(record_views(out@) =~= done.push(v));
                    if let Ok(rest) = records_at(m@, offset as nat, (count - i - 1) as nat) {
                        assert(done.push(v) + rest =~= done + (seq![v] + rest));
                    }
                }
            },
        }
        i = i + 1;
    }
    assert(record_views(out@) + Seq::<RecordView>::empty() =~= record_views(out@));
    Ok(out)
}

fn holds_name(names: &Vec<String>, name: &str) -> (r: bool)
    ensures
        r == domain_set::words(names@).contains(name@),
{
    let ghost w = domain_set::words(names@);
    let mut i: usize = 0;
    while i < names.len()
        invariant
            i <= names@.len(),
            w == domain_set::words(names@),
            forall|j: int| 0 <= j < i ==> w[j] != name@,
        decreases names@.len() - i,
    {
        assert(w[i as int] == names@[i as int]@);
        if text::same(names[i].as_str(), name) {
            return true;
        }
        i = i + 1;
    }
    false
}

/// The state of following aliases.
struct Aliases {
    names: Vec<String>,
    ttl: Option<Duration>,
    changed: bool,
}

impl Aliases {
    spec fn wf(self) -> bool {
        domain_set::words(self.names@).no_duplicates()
    }

    spec fn model(self) -> AliasView {
        AliasView {
            names: domain_set::words(self.names@).to_set(),
            ttl: self.ttl,
            changed: self.changed,
        }
    }
}

fn follow_alias(m: &[u8], st: &mut Aliases, record: &ResourceRecord) -> (r: Result<(), DnsError>)
    requires
        old(st).wf(),
        m@.len() <= 65535,
    ensures
        final(st).wf(),
        match r {
            Ok(_) => alias_step(m@, old(st).model(), record@) == Ok::<AliasView, Seq<char>>(
                final(st).model(),
            ),
            Err(e) => alias_step(m@, old(st).model(), record@) matches Err(t) && e@ == invalid(t),
        },
{
    if record.class != CLASS_IN || record.rr_type != TYPE_CNAME || !holds_name(
        &st.names,
        record.owner.as_str(),
    ) {
        return Ok(());
    }
    let (target, next) = match decode_name(m, record.start) {
        Ok(found) => found,
        Err(e) => {
            return Err(e);
        },
    };
    if next != record.end {
        return Err(invalid_response("DNS CNAME record has trailing or malformed data"));
    }
    let ghost before = domain_set::words(st.names@);
    st.ttl = Some(dns::min_ttl(st.ttl, record.ttl));
    if !holds_name(&st.names, target.as_str()) {
        proof {
            domain_set::lemma_words_push(st.names@, target);
            let w = before.push(target@);
            assert(w.no_duplicates());
            assert(w.to_set() =~= before.to_set().insert(target@)) by {
                assert forall|x: Seq<char>| w.contains(x) <==> (before.contains(x) || x == target@) by {
                    if before.contains(x) {
                        let i = choose|i: int| 0 <= i < before.len() && before[i] == x;
                        assert(w[i] == x);
                    }
                    if x == target@ {
                        assert(w[before.len() as int] == x);
                    }
                }
            }
        }
        st.names.push(target);
        st.changed = true;
    } else {
        assert(before.to_set().insert(target@) =~= before.to_set());
    }
    Ok(())
}

/// A failure in the first records is the failure of the pass.
proof fn lemma_alias_pass_error(m: Seq<u8>, st: AliasView, records: Seq<RecordView>, n: int)
    requires
        0 <= n <= records.len(),
    ensures
        alias_pass(m, st, records.take(n)) matches Err(e) ==> alias_pass(m, st, records) == Err::<
            AliasView,
            Seq<char>,
        >(e),
    decreases records.len() - n,
{
    if n < records.len() {
        assert(records.take(n + 1).drop_last() == records.take(n));
        lemma_alias_pass_error(m, st, records, n + 1);
    } else {
        assert(records.take(n) == records);
    }
}

proof fn lemma_collected_error(
    m: Seq<u8>,
    names: Set<Seq<char>>,
    ttl: Option<Duration>,
    kind: AddressRecordType,
    records: Seq<RecordView>,
    n: int,
)
    requires
        0 <= n <= records.len(),
    ensures
        collected(m, names, ttl, kind, records.take(n)) matches Err(e) ==> collected(
            m,
            names,
            ttl,
            kind,
            records,
        ) == Err::<(Seq<IpAddr>, Option<Duration>), Seq<char>>(e),
    decreases records.len() - n,
{
    if n < records.len() {
        assert(records.take(n + 1).drop_last() == records.take(n));
        lemma_collected_error(m, names, ttl, kind, records, n + 1);
    } else {
        assert(records.take(n) == records);
    }
}

fn follow_pass(m: &[u8], st: &mut Aliases, records: &Vec<ResourceRecord>) -> (r: Result<
    (),
    DnsError,
>)
    requires
        old(st).wf(),
        m@.len() <= 65535,
    ensures
        final(st).wf(),
        match r {
            Ok(_) => alias_pass(m@, old(st).model(), record_views(records@)) == Ok::<
                AliasView,
                Seq<char>,
            >(final(st).model()),
            Err(e) => alias_pass(m@, old(st).model(), record_views(records@)) matches Err(t)
                && e@ == invalid(t),
        },
{
    let ghost start = st.model();
    let ghost all = record_views(records@);
    let mut i: usize = 0;
    while i < records.len()
        invariant
            i <= records@.len(),
            m@.len() <= 65535,
            st.wf(),
            start == old(st).model(),
            all == record_views(records@),
            alias_pass(m@, start, all.take(i as int)) == Ok::<AliasView, Seq<char>>(st.model()),
        decreases records@.len() - i,
    {
        proof {
            assert(all.take(i + 1).drop_last() == all.take(i as int));
            assert(all.take(i + 1).last() == records@[i as int]@);
            lemma_alias_pass_error(m@, start, all, i + 1);
        }
        match follow_alias(m, st, &records[i]) {
            Err(e) => {
                return Err(e);
            },
            Ok(_) => {},
        }
        i = i + 1;
    }
    assert(all.take(i as int) == all);
    Ok(())
}

fn address_of(m: &[u8], record: &ResourceRecord, kind: AddressRecordType) -> (r: Result<
    IpAddr,
    DnsError,
>)
    requires
        record@.start <= record@.end <= m@.len(),
    ensures
        match r {
            Ok(a) => record_address(m@, record@, kind) == Ok::<IpAddr, Seq<char>>(a),
            Err(e) => record_address(m@, record@, kind) matches Err(t) && e@ == invalid(t),
        },
{
    let data = &m[record.start..record.end];
    match kind {
        AddressRecordType::A => {
            if data.len() != 4 {
                return Err(invalid_response("DNS A record has invalid RDLENGTH"));
            }
            proof {
                bytes::lemma_be_value_bound(data@);
                bytes::lemma_pow256();
            }
            Ok(IpAddr::V4(bytes::read_be(data) as u32))
        },
        AddressRecordType::Aaaa => {
            if data.len() != 16 {
                return Err(invalid_response("DNS AAAA record has invalid RDLENGTH"));
            }
            Ok(IpAddr::V6(bytes::read_be(data)))
        },
    }
}

fn resolve_addresses_through_aliases(
    query: &DnsQuery,
    kind: AddressRecordType,
    m: &[u8],
    records: &Vec<ResourceRecord>,
) -> (r: Result<DnsAnswer, DnsError>)
    requires
        m@.len() <= 65535,
        in_bounds(m@, record_views(records@)),
    ensures
        dns::answers(r, resolved(m@, query@, kind, record_views(records@))),
{
    let ghost all = record_views(records@);
    let mut names: Vec<String> = Vec::new();
    names.push(query.name().to_owned());
    let mut st = Aliases { names, ttl: None, changed: false };
    proof {
        let w = domain_set::words(st.names@);
        assert(w =~= seq![query@]);
        assert(w.to_set() =~= set![query@]) by {
            assert(w[0] == query@);
        }
    }
    let mut left: usize = MAX_DNS_ALIAS_HOPS;
    let ghost whole = aliases(m@, set![query@], None, all, 16);
    while left > 0
        invariant_except_break
            left <= 16,
            whole == aliases(m@, st.model().names, st.ttl, all, left as nat),
        invariant
            m@.len() <= 65535,
            all == record_views(records@),
            st.wf(),
            whole == aliases(m@, set![query@], None, all, 16),
        ensures
            whole == Ok::<(Set<Seq<char>>, Option<Duration>), Seq<char>>(
                (st.model().names, st.ttl),
            ),
        decreases left,
    {
        st.changed = false;
        match follow_pass(m, &mut st, records) {
            Err(e) => {
                return Err(e);
            },
            Ok(_) => {},
        }
        if !st.changed {
            break;
        }
        proof {
            domain_set::words(st.names@).unique_seq_to_set();
        }
        if st.names.len() > MAX_DNS_ALIAS_HOPS + 1 {
            return Err(invalid_response("DNS CNAME chain exceeds the configured bound"));
        }
        left = left - 1;
    }
    let ghost accepted = st.model().names;
    let ghost chain = st.ttl;
    let mut addresses: Vec<IpAddr> = Vec::new();
    let mut ttl = st.ttl;
    let mut i: usize = 0;
    while i < records.len()
        invariant
            i <= records@.len(),
            all == record_views(records@),
            in_bounds(m@, all),
            accepted == domain_set::words(st.names@).to_set(),
            aliases(m@, set![query@], None, all, 16) == Ok::<
                (Set<Seq<char>>, Option<Duration>),
                Seq<char>,
            >((accepted, chain)),
            collected(m@, accepted, chain, kind, all.take(i as int)) == Ok::<
                (Seq<IpAddr>, Option<Duration>),
                Seq<char>,
            >((addresses@, ttl)),
        decreases records@.len() - i,
    {
        proof {
            assert(all.take(i + 1).drop_last() == all.take(i as int));
            assert(all.take(i + 1).last() == records@[i as int]@);
            assert(all[i as int] == records@[i as int]@);
            lemma_collected_error(m@, accepted, chain, kind, all, i + 1);
        }
        let record = &records[i];
        if record.class == CLASS_IN && record.rr_type == kind.code() && holds_name(
            &st.names,
            record.owner.as_str(),
        ) {
            match address_of(m, record, kind) {
                Err(e) => {
                    return Err(e);
                },
                Ok(address) => {
                    if !dns::holds_address(addresses.as_slice(), address) {
                        addresses.push(address);
                    }
                    ttl = Some(dns::min_ttl(ttl, record.ttl));
                },
            }
        }
        i = i + 1;
    }
    assert(all.take(i as int) == all);
    DnsAnswer::new(addresses, ttl)
}

/// Reads the response to an address query.
pub fn parse_address_response(
    expected_id: u16,
    query: &DnsQuery,
    kind: AddressRecordType,
    message: &[u8],
) -> (r: Result<DnsAnswer, DnsError>)
    ensures
        dns::answers(r, response(expected_id, query@, kind, message@)),
{
    if message.len() < DNS_HEADER_BYTES || message.len() > MAX_DNS_MESSAGE_BYTES {
        return Err(invalid_response("DNS response size is outside the supported bounds"));
    }
    if bytes::read_u16(message, 0) != expected_id {
        return Err(invalid_response("DNS response transaction ID does not match query"));
    }
    if message[2] < 128 {
        return Err(invalid_response("DNS response is missing the response flag"));
    }
    if message[2] / 2 % 2 == 1 {
        return Err(DnsError::new(DnsErrorKind::ResolverFailure, "DNS response is truncated"));
    }
    let code: u8 = message[3] % 16;
    if code == 3 {
        let text = text::join2("DNS upstream reported NXDOMAIN for ", query.name());
        return Err(DnsError::new(DnsErrorKind::NoRecords, text.as_str()));
    }
    if code != 0 {
        let mut text = "DNS upstream returned response code ".to_owned();
        text::push_decimal(&mut text, code as u64);
        text.append(" for ");
        text.append(query.name());
        return Err(DnsError::new(DnsErrorKind::ResolverFailure, text.as_str()));
    }
    if bytes::read_u16(message, 4) != 1 {
        return Err(invalid_response("DNS response must contain exactly one question"));
    }
    let answer_count: usize = bytes::read_u16(message, 6) as usize;
    if answer_count > MAX_DNS_ANSWER_RECORDS {
        return Err(invalid_response("DNS response answer count exceeds the configured bound"));
    }
    let (question, next) = match decode_name(message, DNS_HEADER_BYTES) {
        Ok(found) => found,
        Err(e) => {
            return Err(e);
        },
    };
    if !text::same(question.as_str(), query.name()) {
        return Err(invalid_response("DNS response question name does not match query"));
    }
    if next + 4 > message.len() {
        return Err(invalid_response("DNS message is truncated"));
    }
    if bytes::read_u16(message, next) != kind.code() || bytes::read_u16(message, next + 2)
        != CLASS_IN {
        return Err(invalid_response("DNS response question type/class does not match query"));
    }
    match read_records(message, next + 4, answer_count) {
        Err(e) => Err(e),
        Ok(records) => resolve_addresses_through_aliases(query, kind, message, &records),
    }
}


/// ASCII characters as bytes.
pub open spec fn ascii_bytes(s: Seq<char>) -> Seq<u8> {
    Seq::new(s.len(), |i: int| s[i] as u8)
}

/// Each label with its length in front, and a zero behind the last.
pub open spec fn encoded_labels(labels: Seq<Seq<char>>) -> Seq<u8>
    decreases labels.len(),
{
    if labels.len() == 0 {
        seq![0u8]
    } else {
        seq![labels[0].len() as u8] + ascii_bytes(labels[0]) + encoded_labels(labels.drop_first())
    }
}

pub open spec fn encoded_name(name: Seq<char>) -> Seq<u8> {
    encoded_labels(text::split(name, '.'))
}

/// A query with recursion desired: header, one question, nothing else.
pub open spec fn query_message(id: u16, name: Seq<char>, kind: AddressRecordType) -> Seq<u8> {
    bytes::be_bytes(id as nat, 2) + seq![1u8, 0, 0, 1, 0, 0, 0, 0, 0, 0] + encoded_name(name)
        + bytes::be_bytes(kind.spec_code() as nat, 2) + seq![0u8, 1]
}

fn encode_name(name: &str, out: &mut Vec<u8>)
    requires
        dns::is_name(name@),
    ensures
        final(out)@ == old(out)@ + encoded_name(name@),
{
    let chars = text::chars_of(name);
    let labels = text::split_of(chars.as_slice(), '.');
    let ghost t = text::split(name@, '.');
    let ghost start = out@;
    let mut i: usize = 0;
    assert(t.skip(0) == t);
    while i < labels.len()
        invariant
            i <= labels@.len(),
            text::texts(labels@) == t,
            t == text::split(name@, '.'),
            domain_set::valid(name@),
            out@ + encoded_labels(t.skip(i as int)) == start + encoded_labels(t),
        decreases labels@.len() - i,
    {
        let label = labels[i];
        let ghost before = out@;
        let ghost rest = t.skip(i as int);
        assert(rest[0] == label@);
        assert(t[i as int] == label@);
        assert(rest.drop_first() == t.skip(i + 1));
        out.push(label.len() as u8);
        let mut k: usize = 0;
        while k < label.len()
            invariant
                k <= label@.len(),
                out@ == before + seq![label@.len() as u8] + ascii_bytes(label@).take(k as int),
            decreases label@.len() - k,
        {
            out.push(label[k] as u8);
            k = k + 1;
            assert(ascii_bytes(label@).take(k as int) == ascii_bytes(label@).take(k - 1).push(
                ascii_bytes(label@)[k - 1],
            ));
        }
        assert(ascii_bytes(label@).take(k as int) == ascii_bytes(label@));
        assert(out@ + encoded_labels(rest.drop_first()) == before + (seq![label@.len() as u8]
            + ascii_bytes(label@) + encoded_labels(rest.drop_first())));
        i = i + 1;
    }
    assert(t.skip(i as int).len() == 0);
    out.push(0u8);
    assert(out@ == start + encoded_labels(t));
}

/// Writes an address query.
pub fn encode_address_query(id: u16, query: &DnsQuery, kind: AddressRecordType) -> (r: Result<
    Vec<u8>,
    DnsError,
>)
    ensures
        r matches Ok(m) && m@ == query_message(id, query@, kind),
{
    let mut out: Vec<u8> = Vec::new();
    bytes::push_be(&mut out, id as u128, 2);
    bytes::push_be(&mut out, 0x0100, 2);
    bytes::push_be(&mut out, 1, 2);
    bytes::push_be(&mut out, 0, 6);
    proof {
        reveal_with_fuel(bytes::be_bytes, 7);
        assert(bytes::be_bytes(0x0100, 2) =~= seq![1u8, 0]);
        assert(bytes::be_bytes(1, 2) =~= seq![0u8, 1]);
        assert(bytes::be_bytes(0, 6) =~= seq![0u8, 0, 0, 0, 0, 0]);
        assert(out@ =~= bytes::be_bytes(id as nat, 2) + seq![1u8, 0, 0, 1, 0, 0, 0, 0, 0, 0]);
    }
    encode_name(query.name(), &mut out);
    bytes::push_be(&mut out, kind.code() as u128, 2);
    out.push(0u8);
    out.push(1u8);
    assert(out@ =~= query_message(id, query@, kind));
    Ok(out)
}

proof fn lemma_split_lower(s: Seq<char>)
    requires
        text::lower(s) == s,
        vstd::utf8::is_ascii_chars(s),
    ensures
        forall|i: int|
            0 <= i < text::split(s, '.').len() ==> text::lower(#[trigger] text::split(s, '.')[i])
                == text::split(s, '.')[i] && vstd::utf8::is_ascii_chars(text::split(s, '.')[i]),
    decreases s.len(),
{
    let n = text::leading(s, Class::IsNot('.')) as int;
    text::lemma_leading(s, Class::IsNot('.'));
    assert forall|i: int| 0 <= i < s.len() implies #[trigger] text::lower_char(s[i]) == s[i] by {
        assert(text::lower(s)[i] == s[i]);
    }
    if n < s.len() {
        let a = s.take(n);
        let b = s.skip(n + 1);
        assert(text::lower(a) =~= a) by {
            assert forall|i: int| 0 <= i < a.len() implies text::lower(a)[i] == a[i] by {
                assert(text::lower_char(s[i]) == s[i]);
            }
        }
        assert(text::lower(b) =~= b) by {
            assert forall|i: int| 0 <= i < b.len() implies text::lower(b)[i] == b[i] by {
                assert(text::lower_char(s[i + n + 1]) == s[i + n + 1]);
            }
        }
        assert(vstd::utf8::is_ascii_chars(b)) by {
            assert forall|i: int| 0 <= i < b.len() implies '\u{0}' <= #[trigger] b[i]
                <= '\u{7f}' by {
                assert('\u{0}' <= s[i + n + 1] <= '\u{7f}');
            }
        }
        assert(vstd::utf8::is_ascii_chars(a)) by {
            assert forall|i: int| 0 <= i < a.len() implies '\u{0}' <= #[trigger] a[i]
                <= '\u{7f}' by {
                assert('\u{0}' <= s[i] <= '\u{7f}');
            }
        }
        lemma_split_lower(b);
        let p = text::split(s, '.');
        assert(p == seq![a] + text::split(b, '.'));
        assert forall|i: int| 0 <= i < p.len() implies text::lower(#[trigger] p[i]) == p[i]
            && vstd::utf8::is_ascii_chars(p[i]) by {
            if i > 0 {
                assert(p[i] == text::split(b, '.')[i - 1]);
            }
        }
    }
}

proof fn lemma_encoded_len(labels: Seq<Seq<char>>)
    ensures
        encoded_labels(labels).len() >= 1,
    decreases labels.len(),
{
    if labels.len() > 0 {
        lemma_encoded_len(labels.drop_first());
    }
}

/// How long the labels are with a dot between them.
spec fn joined_len(labels: Seq<Seq<char>>, first: bool) -> nat
    decreases labels.len(),
{
    if labels.len() == 0 {
        0
    } else {
        labels[0].len() + (if first {
            0nat
        } else {
            1nat
        }) + joined_len(labels.drop_first(), false)
    }
}

proof fn lemma_joined_len(labels: Seq<Seq<char>>)
    requires
        labels.len() > 0,
    ensures
        joined_len(labels, true) == text::join(labels, '.').len(),
        joined_len(labels, false) == 1 + text::join(labels, '.').len(),
    decreases labels.len(),
{
    reveal_with_fuel(joined_len, 2);
    if labels.len() > 1 {
        text::lemma_join_first(labels, '.');
        lemma_joined_len(labels.drop_first());
    }
}

proof fn lemma_labels_decode(m: Seq<u8>, at: nat, used: nat, first: bool, labels: Seq<Seq<char>>)
    requires
        at + encoded_labels(labels).len() <= m.len(),
        m.subrange(at as int, (at + encoded_labels(labels).len()) as int) == encoded_labels(labels),
        used + joined_len(labels, first) <= 253,
        forall|i: int|
            0 <= i < labels.len() ==> 1 <= (#[trigger] labels[i]).len() <= 63
                && vstd::utf8::is_ascii_chars(labels[i]) && text::lower(labels[i]) == labels[i],
    ensures
        labels_at(m, at, 0, used, first) == Ok::<(Seq<Seq<char>>, nat), Seq<char>>(
            (labels, at + encoded_labels(labels).len()),
        ),
    decreases labels.len(),
{
    let e = encoded_labels(labels);
    let w = m.subrange(at as int, (at + e.len()) as int);
    lemma_encoded_len(labels);
    assert(w[0] == m[at as int]);
    if labels.len() > 0 {
        let l = labels[0];
        let rest = labels.drop_first();
        let er = encoded_labels(rest);
        lemma_encoded_len(rest);
        assert(e == seq![l.len() as u8] + ascii_bytes(l) + er);
        assert(e[0] == l.len() as u8);
        assert(m[at as int] as nat == l.len());
        let b = m.subrange(at as int + 1, (at + 1 + l.len()) as int);
        assert(b =~= ascii_bytes(l)) by {
            assert forall|i: int| 0 <= i < l.len() implies b[i] == ascii_bytes(l)[i] by {
                assert(w[i + 1] == m[at + i + 1]);
                assert(e[i + 1] == ascii_bytes(l)[i]);
            }
        }
        assert(is_ascii_bytes(b)) by {
            assert forall|i: int| 0 <= i < b.len() implies #[trigger] b[i] < 128 by {
                assert('\u{0}' <= l[i] <= '\u{7f}');
            }
        }
        lemma_ascii_is_utf8(b);
        assert(ascii_text(b) =~= l) by {
            assert forall|i: int| 0 <= i < l.len() implies ascii_text(b)[i] == l[i] by {
                assert('\u{0}' <= l[i] <= '\u{7f}');
            }
        }
        let next = at + 1 + l.len();
        assert(m.subrange(next as int, (next + er.len()) as int) =~= er) by {
            assert forall|i: int| 0 <= i < er.len() implies m[next + i] == er[i] by {
                assert(w[i + 1 + l.len()] == m[next + i]);
                assert(e[i + 1 + l.len()] == er[i]);
            }
        }
        assert forall|i: int| 0 <= i < rest.len() implies 1 <= (#[trigger] rest[i]).len() <= 63
            && vstd::utf8::is_ascii_chars(rest[i]) && text::lower(rest[i]) == rest[i] by {
            assert(rest[i] == labels[i + 1]);
        }
        let total = used + l.len() + if first {
            0nat
        } else {
            1nat
        };
        lemma_labels_decode(m, next, total, false, rest);
        assert(seq![l] + rest =~= labels);
        assert(text::lower(ascii_text(b)) == l);
        assert(labels_at(m, next, 0, total, false) == Ok::<(Seq<Seq<char>>, nat), Seq<char>>(
            (rest, next + er.len()),
        ));
    } else {
        assert(e[0] == 0u8);
        assert(labels =~= Seq::<Seq<char>>::empty());
    }
}

/// A name that was written into a message is read back from it, whatever stands
/// around it.
pub proof fn law_written_name_is_read_back(front: Seq<u8>, name: Seq<char>, back: Seq<u8>)
    requires
        dns::is_name(name),
    ensures
        name_at(front + encoded_name(name) + back, front.len()) == Ok::<(Seq<char>, nat), Seq<char>>(
            (name, front.len() + encoded_name(name).len()),
        ),
{
    let m = front + encoded_name(name) + back;
    let labels = text::split(name, '.');
    assert(text::lower(name) == name) by {
        let t = text::trim(name, Class::Is('.'));
        assert(text::lower(t) == name);
        assert(text::lower(name) =~= name);
    }
    lemma_split_lower(name);
    text::lemma_join_split(name, '.');
    lemma_joined_len(labels);
    assert(m.subrange(front.len() as int, (front.len() + encoded_name(name).len()) as int)
        =~= encoded_name(name));
    lemma_labels_decode(m, front.len(), 0, true, labels);
}


proof fn lemma_encoded_bound(labels: Seq<Seq<char>>)
    ensures
        encoded_labels(labels).len() == joined_len(labels, false) + 1,
    decreases labels.len(),
{
    if labels.len() > 0 {
        lemma_encoded_bound(labels.drop_first());
    }
}

/// A query is never longer than 271 bytes.
pub proof fn lemma_query_len(id: u16, name: Seq<char>, kind: AddressRecordType)
    requires
        dns::is_name(name),
    ensures
        query_message(id, name, kind).len() == name.len() + 18,
        query_message(id, name, kind).len() <= 271,
{
    let labels = text::split(name, '.');
    text::lemma_join_split(name, '.');
    lemma_joined_len(labels);
    lemma_encoded_bound(labels);
    bytes::lemma_be_bytes_len(id as nat, 2);
    bytes::lemma_be_bytes_len(kind.spec_code() as nat, 2);
}

/// The address is of the family that was asked for.
pub open spec fn is_of_family(a: IpAddr, kind: AddressRecordType) -> bool {
    match kind {
        AddressRecordType::A => a is V4,
        AddressRecordType::Aaaa => a is V6,
    }
}

proof fn lemma_collected(
    m: Seq<u8>,
    names: Set<Seq<char>>,
    ttl: Option<Duration>,
    kind: AddressRecordType,
    records: Seq<RecordView>,
)
    ensures
        collected(m, names, ttl, kind, records) matches Ok((list, t)) ==> {
            &&& forall|i: int| 0 <= i < list.len() ==> is_of_family(#[trigger] list[i], kind)
            &&& ttl matches Some(bound) ==> (t matches Some(kept) && kept.nanos <= bound.nanos)
            &&& forall|i: int|
                0 <= i < records.len() && counts(#[trigger] records[i], names, kind)
                    ==> (t matches Some(kept) && kept.nanos <= records[i].ttl.nanos)
            &&& (forall|i: int| 0 <= i < records.len() ==> !counts(#[trigger] records[i], names, kind))
                ==> list.len() == 0
        },
    decreases records.len(),
{
    if records.len() > 0 {
        let front = records.drop_last();
        lemma_collected(m, names, ttl, kind, front);
        if let Ok((list, t)) = collected(m, names, ttl, kind, records) {
            assert forall|i: int|
                0 <= i < records.len() && counts(
                    #[trigger] records[i],
                    names,
                    kind,
                ) implies t matches Some(kept) && kept.nanos <= records[i].ttl.nanos by {
                if i < front.len() {
                    assert(front[i] == records[i]);
                    assert(counts(front[i], names, kind));
                }
            }
            if forall|i: int| 0 <= i < records.len() ==> !counts(#[trigger] records[i], names, kind) {
                assert forall|i: int| 0 <= i < front.len() implies !counts(
                    #[trigger] front[i],
                    names,
                    kind,
                ) by {
                    assert(!counts(records[i], names, kind));
                }
                assert(!counts(records[records.len() - 1], names, kind));
            }
        }
    }
}

/// The record holds an address of one of the names.
pub open spec fn counts(r: RecordView, names: Set<Seq<char>>, kind: AddressRecordType) -> bool {
    r.class == 1 && r.rr_type == kind.spec_code() && names.contains(r.owner)
}

/// An accepted response belongs to its query and is bounded: it carries the query's
/// identifier, name and type, and holds one to sixteen distinct addresses of the
/// family that was asked for.
pub proof fn law_answer_belongs_to_its_query(
    id: u16,
    name: Seq<char>,
    kind: AddressRecordType,
    m: Seq<u8>,
)
    ensures
        response(id, name, kind, m) matches Ok(a) ==> {
            &&& bytes::be16(m, 0) == id
            &&& name_at(m, 12) matches Ok((question, next)) && question == name && bytes::be16(
                m,
                next as int,
            ) == kind.spec_code()
            &&& dns::is_address_list(a.addresses)
            &&& forall|i: int|
                0 <= i < a.addresses.len() ==> is_of_family(#[trigger] a.addresses[i], kind)
        },
{
    if let Ok(a) = response(id, name, kind, m) {
        let next = name_at(m, 12)->Ok_0.1;
        let records = records_at(m, next + 4, bytes::be16(m, 6))->Ok_0;
        let (names, ttl) = aliases(m, set![name], None, records, 16)->Ok_0;
        let list = collected(m, names, ttl, kind, records)->Ok_0.0;
        lemma_collected(m, names, ttl, kind, records);
        dns::lemma_distinct(list);
        assert forall|i: int| 0 <= i < a.addresses.len() implies is_of_family(
            #[trigger] a.addresses[i],
            kind,
        ) by {
            assert(dns::distinct(list).contains(a.addresses[i]));
            assert(list.contains(a.addresses[i]));
        }
    }
}

proof fn lemma_no_aliases(m: Seq<u8>, st: AliasView, records: Seq<RecordView>)
    requires
        forall|i: int|
            0 <= i < records.len() ==> !st.names.contains((#[trigger] records[i]).owner)
                || records[i].rr_type != 5,
    ensures
        alias_pass(m, st, records) == Ok::<AliasView, Seq<char>>(st),
    decreases records.len(),
{
    if records.len() > 0 {
        let front = records.drop_last();
        assert forall|i: int| 0 <= i < front.len() implies !st.names.contains(
            (#[trigger] front[i]).owner,
        ) || front[i].rr_type != 5 by {
            assert(front[i] == records[i]);
        }
        lemma_no_aliases(m, st, front);
    }
}

/// Records of other names are no answer: where none belongs to the name that was
/// asked for, there are no addresses.
pub proof fn law_unrelated_records_are_not_accepted(
    m: Seq<u8>,
    name: Seq<char>,
    kind: AddressRecordType,
    records: Seq<RecordView>,
)
    requires
        forall|i: int| 0 <= i < records.len() ==> (#[trigger] records[i]).owner != name,
    ensures
        resolved(m, name, kind, records) matches Err(e) && e.kind == DnsErrorKind::NoRecords,
{
    let names = set![name];
    lemma_no_aliases(m, AliasView { names, ttl: None, changed: false }, records);
    assert(aliases(m, names, None, records, 16) == Ok::<
        (Set<Seq<char>>, Option<Duration>),
        Seq<char>,
    >((names, None)));
    assert forall|i: int| 0 <= i < records.len() implies !counts(
        #[trigger] records[i],
        names,
        kind,
    ) by {}
    lemma_collected(m, names, None, kind, records);
    lemma_collected_is_ok(m, names, None, kind, records);
}

proof fn lemma_collected_is_ok(
    m: Seq<u8>,
    names: Set<Seq<char>>,
    ttl: Option<Duration>,
    kind: AddressRecordType,
    records: Seq<RecordView>,
)
    requires
        forall|i: int| 0 <= i < records.len() ==> !counts(#[trigger] records[i], names, kind),
    ensures
        collected(m, names, ttl, kind, records) is Ok,
    decreases records.len(),
{
    if records.len() > 0 {
        let front = records.drop_last();
        assert forall|i: int| 0 <= i < front.len() implies !counts(
            #[trigger] front[i],
            names,
            kind,
        ) by {
            assert(front[i] == records[i]);
        }
        lemma_collected_is_ok(m, names, ttl, kind, front);
        assert(!counts(records[records.len() - 1], names, kind));
    }
}

/// The first time is no longer than the second, where there is a second.
pub open spec fn within(t: Option<Duration>, bound: Option<Duration>) -> bool {
    bound matches Some(b) ==> (t matches Some(d) && d.nanos <= b.nanos)
}

/// An alias of one of the names.
pub open spec fn is_alias(r: RecordView, names: Set<Seq<char>>) -> bool {
    r.class == 1 && r.rr_type == 5 && names.contains(r.owner)
}

proof fn lemma_alias_pass(m: Seq<u8>, st: AliasView, records: Seq<RecordView>)
    ensures
        alias_pass(m, st, records) matches Ok(end) ==> {
            &&& st.names.subset_of(end.names)
            &&& within(end.ttl, st.ttl)
            &&& forall|i: int|
                0 <= i < records.len() && is_alias(#[trigger] records[i], st.names) ==> within(
                    end.ttl,
                    Some(records[i].ttl),
                )
            &&& !end.changed ==> end.names == st.names
        },
    decreases records.len(),
{
    if records.len() > 0 {
        let front = records.drop_last();
        lemma_alias_pass(m, st, front);
        if let Ok(end) = alias_pass(m, st, records) {
            let mid = alias_pass(m, st, front)->Ok_0;
            assert forall|i: int|
                0 <= i < records.len() && is_alias(#[trigger] records[i], st.names) implies within(
                end.ttl,
                Some(records[i].ttl),
            ) by {
                if i < front.len() {
                    assert(front[i] == records[i]);
                    assert(is_alias(front[i], st.names));
                    assert(within(mid.ttl, Some(records[i].ttl)));
                } else {
                    assert(mid.names.contains(records[i].owner));
                }
            }
            if !end.changed {
                assert(end.names =~= mid.names);
            }
        }
    }
}

proof fn lemma_aliases_shorten(
    m: Seq<u8>,
    names: Set<Seq<char>>,
    ttl: Option<Duration>,
    records: Seq<RecordView>,
    rounds: nat,
)
    ensures
        aliases(m, names, ttl, records, rounds) matches Ok((_, t)) ==> within(t, ttl),
    decreases rounds,
{
    if rounds > 0 {
        let start = AliasView { names, ttl, changed: false };
        lemma_alias_pass(m, start, records);
        if let Ok(st) = alias_pass(m, start, records) {
            lemma_aliases_shorten(m, st.names, st.ttl, records, (rounds - 1) as nat);
        }
    }
}

/// One more round takes in the aliases of all names that were reached before it.
proof fn lemma_aliases(
    m: Seq<u8>,
    names: Set<Seq<char>>,
    ttl: Option<Duration>,
    records: Seq<RecordView>,
    rounds: nat,
    i: int,
)
    requires
        0 <= i < records.len(),
        aliases(m, names, ttl, records, rounds) matches Ok((reached, _)) && is_alias(
            records[i],
            reached,
        ),
    ensures
        aliases(m, names, ttl, records, rounds + 1) matches Ok((_, t)) ==> within(
            t,
            Some(records[i].ttl),
        ),
    decreases rounds,
{
    let start = AliasView { names, ttl, changed: false };
    lemma_alias_pass(m, start, records);
    if let Ok(st) = alias_pass(m, start, records) {
        if rounds == 0 {
            assert(within(st.ttl, Some(records[i].ttl)));
            lemma_aliases_shorten(m, st.names, st.ttl, records, 0);
        } else if st.changed {
            lemma_aliases(m, st.names, st.ttl, records, (rounds - 1) as nat, i);
        }
    }
}

/// The record was used for the answer to a name: it holds an address of the name or
/// of one that its aliases lead to, or it is an alias of a name that was reached
/// before the last of the sixteen rounds.
pub open spec fn was_used(
    m: Seq<u8>,
    name: Seq<char>,
    kind: AddressRecordType,
    records: Seq<RecordView>,
    i: int,
) -> bool {
    ||| aliases(m, set![name], None, records, 16) matches Ok((all, _)) && counts(
        records[i],
        all,
        kind,
    )
    ||| aliases(m, set![name], None, records, 15) matches Ok((reached, _)) && is_alias(
        records[i],
        reached,
    )
}

/// An answer is kept no longer than the records allow that were used for it, neither
/// the addresses that it lists nor the aliases that led to them.
pub proof fn law_answer_does_not_outlive_its_records(
    m: Seq<u8>,
    name: Seq<char>,
    kind: AddressRecordType,
    records: Seq<RecordView>,
    i: int,
)
    requires
        0 <= i < records.len(),
        was_used(m, name, kind, records, i),
    ensures
        resolved(m, name, kind, records) matches Ok(a) ==> within(a.ttl, Some(records[i].ttl)),
{
    let names = set![name];
    if let Ok((all, ttl)) = aliases(m, names, None, records, 16) {
        lemma_collected(m, all, ttl, kind, records);
        if aliases(m, names, None, records, 15) matches Ok((reached, _)) && is_alias(
            records[i],
            reached,
        ) {
            lemma_aliases(m, names, None, records, 15, i);
        }
    }
}

/// The shortest response to a query that lists one address: the header, the
/// question, and a record of the name.
pub open spec fn single_response(
    id: u16,
    name: Seq<char>,
    kind: AddressRecordType,
    seconds: u32,
    data: Seq<u8>,
) -> Seq<u8> {
    bytes::be_bytes(id as nat, 2) + seq![129u8, 128, 0, 1, 0, 1, 0, 0, 0, 0] + encoded_name(name)
        + bytes::be_bytes(kind.spec_code() as nat, 2) + seq![0u8, 1] + encoded_name(name)
        + bytes::be_bytes(kind.spec_code() as nat, 2) + seq![0u8, 1] + bytes::be_bytes(
        seconds as nat,
        4,
    ) + bytes::be_bytes(data.len(), 2) + data
}

proof fn lemma_single_question(
    id: u16,
    name: Seq<char>,
    kind: AddressRecordType,
    seconds: u32,
    data: Seq<u8>,
)
    requires
        dns::is_name(name),
        data.len() <= 16,
    ensures
        ({
            let m = single_response(id, name, kind, seconds, data);
            let next = 12 + encoded_name(name).len();
            &&& 12 <= m.len() <= 65535
            &&& bytes::be16(m, 0) == id
            &&& m[2] == 129 && m[3] == 128
            &&& bytes::be16(m, 4) == 1
            &&& bytes::be16(m, 6) == 1
            &&& name_at(m, 12) == Ok::<(Seq<char>, nat), Seq<char>>((name, next))
            &&& next + 4 <= m.len()
            &&& bytes::be16(m, next as int) == kind.spec_code()
            &&& bytes::be16(m, next as int + 2) == 1
        }),
{
    let m = single_response(id, name, kind, seconds, data);
    let e = encoded_name(name);
    let number = bytes::be_bytes(id as nat, 2);
    let code = bytes::be_bytes(kind.spec_code() as nat, 2);
    let head = number + seq![129u8, 128, 0, 1, 0, 1, 0, 0, 0, 0];
    let time = bytes::be_bytes(seconds as nat, 4);
    let size = bytes::be_bytes(data.len(), 2);
    bytes::lemma_be16(id as nat);
    bytes::lemma_be16(kind.spec_code() as nat);
    bytes::lemma_be_bytes_len(data.len(), 2);
    bytes::lemma_be_bytes_len(seconds as nat, 4);
    lemma_query_len(id, name, kind);
    assert(query_message(id, name, kind).len() == 12 + e.len() + 4);
    let rest = code + seq![0u8, 1] + e + code + seq![0u8, 1] + time + size + data;
    assert(m =~= head + e + rest);
    law_written_name_is_read_back(head, name, rest);
    let next = (12 + e.len()) as int;
    assert(m[0] == number[0] && m[1] == number[1]);
    assert(rest[0] == code[0] && rest[1] == code[1] && rest[2] == 0 && rest[3] == 1);
    assert(m[next] == rest[0] && m[next + 1] == rest[1]);
    assert(m[next + 2] == rest[2] && m[next + 3] == rest[3]);
}

/// What follows the name in a record of an address.
spec fn record_rest(kind: AddressRecordType, seconds: u32, data: Seq<u8>) -> Seq<u8> {
    bytes::be_bytes(kind.spec_code() as nat, 2) + seq![0u8, 1] + bytes::be_bytes(seconds as nat, 4)
        + bytes::be_bytes(data.len(), 2) + data
}

proof fn lemma_record_rest(kind: AddressRecordType, seconds: u32, data: Seq<u8>)
    requires
        data.len() <= 16,
    ensures
        ({
            let back = record_rest(kind, seconds, data);
            &&& back.len() == 10 + data.len()
            &&& bytes::be16(back, 0) == kind.spec_code()
            &&& bytes::be16(back, 2) == 1
            &&& bytes::be_value(back.subrange(4, 8)) == seconds
            &&& bytes::be16(back, 8) == data.len()
            &&& back.skip(10) == data
        }),
{
    let back = record_rest(kind, seconds, data);
    let code = bytes::be_bytes(kind.spec_code() as nat, 2);
    let time = bytes::be_bytes(seconds as nat, 4);
    let size = bytes::be_bytes(data.len(), 2);
    bytes::lemma_be16(kind.spec_code() as nat);
    bytes::lemma_be16(data.len());
    bytes::lemma_pow256();
    bytes::lemma_be_round_trip(seconds as nat, 4);
    assert(back[0] == code[0] && back[1] == code[1] && back[2] == 0 && back[3] == 1);
    assert(back[8] == size[0] && back[9] == size[1]);
    assert(back.subrange(4, 8) =~= time);
    assert(back.skip(10) =~= data);
}

/// A record is read back, whatever stands in front of it.
proof fn lemma_record_is_read(
    front: Seq<u8>,
    name: Seq<char>,
    kind: AddressRecordType,
    seconds: u32,
    data: Seq<u8>,
)
    requires
        dns::is_name(name),
        data.len() <= 16,
    ensures
        ({
            let m = front + encoded_name(name) + record_rest(kind, seconds, data);
            let start = front.len() + encoded_name(name).len() + 10;
            let end = start + data.len();
            &&& record_at(m, front.len()) == Ok::<RecordView, Seq<char>>(
                RecordView {
                    owner: name,
                    rr_type: kind.spec_code() as nat,
                    class: 1,
                    ttl: Duration::spec_from_secs(seconds as u64),
                    start,
                    end,
                },
            )
            &&& m.subrange(start as int, end as int) == data
        }),
{
    let back = record_rest(kind, seconds, data);
    let m = front + encoded_name(name) + back;
    let n = (front.len() + encoded_name(name).len()) as int;
    lemma_record_rest(kind, seconds, data);
    law_written_name_is_read_back(front, name, back);
    assert forall|i: int| 0 <= i < back.len() implies m[n + i] == #[trigger] back[i] by {}
    assert(m[n] == back[0] && m[n + 1] == back[1] && m[n + 2] == back[2] && m[n + 3] == back[3]);
    assert(m[n + 8] == back[8] && m[n + 9] == back[9]);
    assert(m.subrange(n + 4, n + 8) =~= back.subrange(4, 8));
    assert(m.subrange(n + 10, n + 10 + data.len()) =~= back.skip(10));
}

proof fn lemma_single_record(
    id: u16,
    name: Seq<char>,
    kind: AddressRecordType,
    seconds: u32,
    data: Seq<u8>,
)
    requires
        dns::is_name(name),
        data.len() <= 16,
    ensures
        ({
            let m = single_response(id, name, kind, seconds, data);
            let at = 16 + encoded_name(name).len();
            let start = at + encoded_name(name).len() + 10;
            let end = start + data.len();
            &&& record_at(m, at) == Ok::<RecordView, Seq<char>>(
                RecordView {
                    owner: name,
                    rr_type: kind.spec_code() as nat,
                    class: 1,
                    ttl: Duration::spec_from_secs(seconds as u64),
                    start,
                    end,
                },
            )
            &&& m.subrange(start as int, end as int) == data
        }),
{
    let e = encoded_name(name);
    let code = bytes::be_bytes(kind.spec_code() as nat, 2);
    let front = bytes::be_bytes(id as nat, 2) + seq![129u8, 128, 0, 1, 0, 1, 0, 0, 0, 0] + e + code
        + seq![0u8, 1];
    bytes::lemma_be_bytes_len(id as nat, 2);
    bytes::lemma_be_bytes_len(kind.spec_code() as nat, 2);
    assert(front.len() == 16 + e.len());
    assert(single_response(id, name, kind, seconds, data) =~= front + e + record_rest(
        kind,
        seconds,
        data,
    ));
    lemma_record_is_read(front, name, kind, seconds, data);
}

/// A response that repeats the question of a query and lists an address is answered
/// with this address, to be kept for as long as the response says.
pub proof fn law_listed_address_is_the_answer(
    id: u16,
    name: Seq<char>,
    kind: AddressRecordType,
    seconds: u32,
    data: Seq<u8>,
)
    requires
        dns::is_name(name),
        data.len() == match kind {
            AddressRecordType::A => 4nat,
            AddressRecordType::Aaaa => 16,
        },
    ensures
        response(id, name, kind, single_response(id, name, kind, seconds, data)) == Ok::<
            AnswerView,
            DnsErrorView,
        >(
            AnswerView {
                addresses: seq![
                    match kind {
                        AddressRecordType::A => IpAddr::V4(bytes::be_value(data) as u32),
                        AddressRecordType::Aaaa => IpAddr::V6(bytes::be_value(data) as u128),
                    },
                ],
                ttl: Some(Duration::spec_from_secs(seconds as u64)),
            },
        ),
{
    let m = single_response(id, name, kind, seconds, data);
    lemma_single_question(id, name, kind, seconds, data);
    lemma_single_record(id, name, kind, seconds, data);
    let at = 16 + encoded_name(name).len();
    let record = record_at(m, at)->Ok_0;
    let records = seq![record];
    assert(records_at(m, record.end, 0) == Ok::<Seq<RecordView>, Seq<char>>(Seq::empty()));
    assert(seq![record] + Seq::<RecordView>::empty() =~= records);
    assert(records_at(m, at, 1) == Ok::<Seq<RecordView>, Seq<char>>(records));
    assert(resolved(m, name, kind, records) == response(id, name, kind, m));
    lemma_single_resolved(m, name, kind, record, data);
}

proof fn lemma_single_resolved(
    m: Seq<u8>,
    name: Seq<char>,
    kind: AddressRecordType,
    record: RecordView,
    data: Seq<u8>,
)
    requires
        record.owner == name,
        record.class == 1,
        record.rr_type == kind.spec_code(),
        m.subrange(record.start as int, record.end as int) == data,
        data.len() == match kind {
            AddressRecordType::A => 4nat,
            AddressRecordType::Aaaa => 16,
        },
    ensures
        resolved(m, name, kind, seq![record]) == Ok::<AnswerView, DnsErrorView>(
            AnswerView {
                addresses: seq![
                    match kind {
                        AddressRecordType::A => IpAddr::V4(bytes::be_value(data) as u32),
                        AddressRecordType::Aaaa => IpAddr::V6(bytes::be_value(data) as u128),
                    },
                ],
                ttl: Some(record.ttl),
            },
        ),
{
    let records = seq![record];
    let names = set![name];
    lemma_no_aliases(m, AliasView { names, ttl: None, changed: false }, records);
    assert(aliases(m, names, None, records, 16) == Ok::<
        (Set<Seq<char>>, Option<Duration>),
        Seq<char>,
    >((names, None)));
    let address = match kind {
        AddressRecordType::A => IpAddr::V4(bytes::be_value(data) as u32),
        AddressRecordType::Aaaa => IpAddr::V6(bytes::be_value(data) as u128),
    };
    assert(record_address(m, record, kind) == Ok::<IpAddr, Seq<char>>(address));
    let list = seq![address];
    assert(records.drop_last() =~= Seq::<RecordView>::empty());
    assert(collected(m, names, None, kind, records.drop_last()) == Ok::<
        (Seq<IpAddr>, Option<Duration>),
        Seq<char>,
    >((Seq::empty(), None)));
    assert(Seq::<IpAddr>::empty().push(address) =~= list);
    assert(collected(m, names, None, kind, records) == Ok::<
        (Seq<IpAddr>, Option<Duration>),
        Seq<char>,
    >((list, Some(record.ttl))));
    dns::lemma_distinct_fixed(list);
}

/// Some of the records that count holds the address.
pub open spec fn some_record_holds(
    m: Seq<u8>,
    names: Set<Seq<char>>,
    kind: AddressRecordType,
    records: Seq<RecordView>,
    address: IpAddr,
) -> bool {
    exists|i: int|
        0 <= i < records.len() && counts(#[trigger] records[i], names, kind) && record_address(
            m,
            records[i],
            kind,
        ) == Ok::<IpAddr, Seq<char>>(address)
}

proof fn lemma_collected_addresses(
    m: Seq<u8>,
    names: Set<Seq<char>>,
    ttl: Option<Duration>,
    kind: AddressRecordType,
    records: Seq<RecordView>,
    address: IpAddr,
)
    ensures
        collected(m, names, ttl, kind, records) matches Ok((list, _)) ==> (list.contains(address)
            <==> some_record_holds(m, names, kind, records, address)) && list.no_duplicates(),
    decreases records.len(),
{
    if records.len() > 0 {
        let front = records.drop_last();
        let r = records.last();
        lemma_collected_addresses(m, names, ttl, kind, front, address);
        if let Ok((list, _)) = collected(m, names, ttl, kind, records) {
            let before = collected(m, names, ttl, kind, front)->Ok_0.0;
            assert(records[records.len() - 1] == r);
            if some_record_holds(m, names, kind, front, address) {
                let i = choose|i: int|
                    0 <= i < front.len() && counts(#[trigger] front[i], names, kind)
                        && record_address(m, front[i], kind) == Ok::<IpAddr, Seq<char>>(address);
                assert(records[i] == front[i]);
            }
            if some_record_holds(m, names, kind, records, address) {
                let i = choose|i: int|
                    0 <= i < records.len() && counts(#[trigger] records[i], names, kind)
                        && record_address(m, records[i], kind) == Ok::<IpAddr, Seq<char>>(address);
                if i < front.len() {
                    assert(front[i] == records[i]);
                }
            }
            if counts(r, names, kind) {
                let a = record_address(m, r, kind)->Ok_0;
                if !before.contains(a) {
                    assert(before.push(a)[before.len() as int] == a);
                    if before.contains(address) {
                        let k = before.index_of(address);
                        assert(before.push(a)[k] == address);
                    }
                    if before.push(a).contains(address) {
                        let k = before.push(a).index_of(address);
                        if k < before.len() {
                            assert(before[k] == address);
                        }
                    }
                }
            }
        }
    }
}

/// The answer to a name lists the addresses that the response has for the name or for
/// what its aliases lead to, all of them as far as there is room, and no others.
pub proof fn law_answer_lists_the_addresses_of_the_name(
    m: Seq<u8>,
    name: Seq<char>,
    kind: AddressRecordType,
    records: Seq<RecordView>,
    address: IpAddr,
)
    ensures
        resolved(m, name, kind, records) matches Ok(a) ==> (aliases(
            m,
            set![name],
            None,
            records,
            16,
        ) matches Ok((all, _)) && {
            &&& a.addresses.contains(address) ==> some_record_holds(m, all, kind, records, address)
            &&& some_record_holds(m, all, kind, records, address) ==> a.addresses.contains(address)
                || a.addresses.len() == 16
        }),
{
    if let Ok((all, ttl)) = aliases(m, set![name], None, records, 16) {
        if let Ok((list, t)) = collected(m, all, ttl, kind, records) {
            lemma_collected_addresses(m, all, ttl, kind, records, address);
            dns::law_answer_lists_its_addresses(list, t);
        }
    }
}

/// An alias of the name leads to the target.
pub open spec fn leads_to(
    m: Seq<u8>,
    names: Set<Seq<char>>,
    records: Seq<RecordView>,
    target: Seq<char>,
) -> bool {
    exists|i: int|
        0 <= i < records.len() && is_alias(#[trigger] records[i], names) && (name_at(
            m,
            records[i].start,
        ) matches Ok((t, _)) && t == target)
}

proof fn lemma_pass_follows(
    m: Seq<u8>,
    st: AliasView,
    records: Seq<RecordView>,
    target: Seq<char>,
)
    ensures
        alias_pass(m, st, records) matches Ok(end) ==> {
            &&& st.names.subset_of(end.names)
            &&& leads_to(m, st.names, records, target) ==> end.names.contains(target)
            &&& end.names.contains(target) ==> st.names.contains(target) || leads_to(
                m,
                end.names,
                records,
                target,
            )
        },
    decreases records.len(),
{
    if records.len() > 0 {
        let front = records.drop_last();
        let r = records.last();
        lemma_pass_follows(m, st, front, target);
        if let Ok(end) = alias_pass(m, st, records) {
            let mid = alias_pass(m, st, front)->Ok_0;
            assert(records[records.len() - 1] == r);
            if leads_to(m, st.names, records, target) {
                let i = choose|i: int|
                    0 <= i < records.len() && is_alias(#[trigger] records[i], st.names) && (name_at(
                        m,
                        records[i].start,
                    ) matches Ok((t, _)) && t == target);
                if i < front.len() {
                    assert(front[i] == records[i]);
                    assert(is_alias(front[i], st.names));
                    assert(leads_to(m, st.names, front, target));
                } else {
                    assert(mid.names.contains(r.owner));
                }
            }
            if end.names.contains(target) && !st.names.contains(target) {
                if mid.names.contains(target) {
                    let i = choose|i: int|
                        0 <= i < front.len() && is_alias(#[trigger] front[i], mid.names) && (
                        name_at(m, front[i].start) matches Ok((t, _)) && t == target);
                    assert(records[i] == front[i]);
                    assert(is_alias(records[i], end.names));
                } else {
                    assert(is_alias(records[records.len() - 1], end.names));
                }
            }
        }
    }
}

/// Aliases are followed: what an alias of the name leads to counts as the name, one
/// alias after the other; and nothing counts that no alias leads to.
pub proof fn law_aliases_are_followed(
    m: Seq<u8>,
    names: Set<Seq<char>>,
    ttl: Option<Duration>,
    records: Seq<RecordView>,
    rounds: nat,
    target: Seq<char>,
)
    ensures
        aliases(m, names, ttl, records, rounds) matches Ok((all, _)) ==> {
            &&& names.subset_of(all)
            &&& rounds > 0 && leads_to(m, names, records, target) ==> all.contains(target)
            &&& all.contains(target) ==> names.contains(target) || leads_to(
                m,
                all,
                records,
                target,
            )
        },
        aliases(m, names, ttl, records, rounds + 1) matches Ok((more, _)) ==> aliases(
            m,
            names,
            ttl,
            records,
            rounds,
        ) matches Ok((reached, _)) ==> leads_to(m, reached, records, target) ==> more.contains(
            target,
        ),
    decreases rounds,
{
    let start = AliasView { names, ttl, changed: false };
    lemma_pass_follows(m, start, records, target);
    lemma_alias_pass(m, start, records);
    if let Ok(st) = alias_pass(m, start, records) {
        if rounds > 0 {
            law_aliases_are_followed(
                m,
                st.names,
                st.ttl,
                records,
                (rounds - 1) as nat,
                target,
            );
            if let Ok((all, _)) = aliases(m, names, ttl, records, rounds) {
                if all.contains(target) && !names.contains(target) && st.names.contains(target) {
                    let i = choose|i: int|
                        0 <= i < records.len() && is_alias(#[trigger] records[i], st.names) && (
                        name_at(m, records[i].start) matches Ok((t, _)) && t == target);
                    assert(is_alias(records[i], all));
                }
            }
        } else {
            assert(aliases(m, names, ttl, records, 0) == Ok::<
                (Set<Seq<char>>, Option<Duration>),
                Seq<char>,
            >((names, ttl)));
            assert(aliases(m, st.names, st.ttl, records, 0) == Ok::<
                (Set<Seq<char>>, Option<Duration>),
                Seq<char>,
            >((st.names, st.ttl)));
        }
    }
}

/// A response is an answer only where it is a whole response without an error; that the
/// name does not exist is a lack of records, any other report a failure of the resolver.
pub proof fn law_failed_responses_are_told_apart(
    id: u16,
    name: Seq<char>,
    kind: AddressRecordType,
    m: Seq<u8>,
)
    requires
        12 <= m.len() <= 65535,
        bytes::be16(m, 0) == id,
    ensures
        ({
            let r = response(id, name, kind, m);
            let is_response = m[2] >= 128;
            let truncated = m[2] / 2 % 2 == 1;
            let code = m[3] % 16;
            &&& r is Ok ==> is_response && !truncated && code == 0
            &&& !is_response ==> (r matches Err(e) && e.kind == DnsErrorKind::InvalidResponse)
            &&& is_response && truncated ==> (r matches Err(e) && e.kind
                == DnsErrorKind::ResolverFailure)
            &&& is_response && !truncated && code == 3 ==> (r matches Err(e) && e.kind
                == DnsErrorKind::NoRecords)
            &&& is_response && !truncated && code != 0 && code != 3 ==> (r matches Err(e) && e.kind
                == DnsErrorKind::ResolverFailure)
        }),
{
}

/// A response to another query is malformed, whatever it says.
pub proof fn law_foreign_responses_are_refused(
    id: u16,
    name: Seq<char>,
    kind: AddressRecordType,
    m: Seq<u8>,
)
    requires
        m.len() >= 12,
        bytes::be16(m, 0) != id || (m[2] >= 128 && m[2] / 2 % 2 == 0 && m[3] % 16 == 0 && (name_at(
            m,
            12,
        ) matches Ok((question, _)) ==> question != name)),
    ensures
        response(id, name, kind, m) matches Err(e) && e.kind == DnsErrorKind::InvalidResponse,
{
}

/// A query asks one question: for the addresses of the family that the name has, with
/// recursion, under its identifier. It reads as the question of a response would.
pub proof fn law_query_asks_for_the_name(id: u16, name: Seq<char>, kind: AddressRecordType)
    requires
        dns::is_name(name),
    ensures
        ({
            let m = query_message(id, name, kind);
            &&& bytes::be16(m, 0) == id
            &&& m[2] == 1 && m[3] == 0
            &&& bytes::be16(m, 4) == 1
            &&& bytes::be16(m, 6) == 0 && bytes::be16(m, 8) == 0 && bytes::be16(m, 10) == 0
            &&& name_at(m, 12) matches Ok((question, next)) && {
                &&& question == name
                &&& m.len() == next + 4
                &&& bytes::be16(m, next as int) == match kind {
                    AddressRecordType::A => 1nat,
                    AddressRecordType::Aaaa => 28,
                }
                &&& bytes::be16(m, next as int + 2) == 1
            }
        }),
{
    let e = encoded_name(name);
    let code = bytes::be_bytes(kind.spec_code() as nat, 2);
    let head = bytes::be_bytes(id as nat, 2) + seq![1u8, 0, 0, 1, 0, 0, 0, 0, 0, 0];
    let back = code + seq![0u8, 1];
    let m = query_message(id, name, kind);
    bytes::lemma_be16(id as nat);
    bytes::lemma_be16(kind.spec_code() as nat);
    assert(m =~= head + e + back);
    law_written_name_is_read_back(head, name, back);
    let b = bytes::be_bytes(id as nat, 2);
    assert(m[0] == b[0] && m[1] == b[1] && m[2] == 1 && m[3] == 0 && m[4] == 0 && m[5] == 1);
    assert(m[6] == 0 && m[7] == 0 && m[8] == 0 && m[9] == 0 && m[10] == 0 && m[11] == 0);
    let n = (12 + e.len()) as int;
    assert(m[n] == code[0] && m[n + 1] == code[1] && m[n + 2] == 0 && m[n + 3] == 1);
}

} // verus!
