//! Independent DNS failure domain.
//!
//! Resolution order is deliberately explicit:
//!
//! 1. native hosts overrides,
//! 2. bounded in-memory cache,
//! 3. ordered resolver fallback.
//!
//! System DNS remains the default resolver. Secure resolver providers attach
//! behind `Resolver` without changing proxy protocol handlers or daemon callers.

use crate::domain_set;
use crate::net::IpAddr;
use crate::text;
use crate::text::Class;
use crate::time::Duration;
use vstd::prelude::*;
use vstd::string::*;

pub mod cache;
pub mod dot;
pub mod engine;
pub mod hosts;
pub mod wire;

verus! {

pub const MAX_RESOLVED_ADDRESSES: usize = 16;

#[derive(Clone, Copy, Debug, PartialEq, Eq, Structural)]
pub enum DnsErrorKind {
    InvalidName,
    HostsParse,
    NoResolvers,
    NoRecords,
    ResolverFailure,
    InvalidResponse,
    InvalidConfiguration,
}

#[derive(Debug, PartialEq, Eq)]
pub struct DnsError {
    kind: DnsErrorKind,
    message: String,
}

#[verifier::ext_equal]
pub struct DnsErrorView {
    pub kind: DnsErrorKind,
    pub message: Seq<char>,
}

impl View for DnsError {
    type V = DnsErrorView;

    closed spec fn view(&self) -> DnsErrorView {
        DnsErrorView { kind: self.kind, message: self.message@ }
    }
}

/// The model of an error.
pub open spec fn dns_failure(kind: DnsErrorKind, message: Seq<char>) -> DnsErrorView {
    DnsErrorView { kind, message }
}

impl DnsError {
    pub fn new(kind: DnsErrorKind, message: &str) -> (r: DnsError)
        ensures
            r@ == dns_failure(kind, message@),
    {
        DnsError { kind, message: message.to_owned() }
    }

    pub fn kind(&self) -> (r: DnsErrorKind)
        ensures
            r == self@.kind,
    {
        self.kind
    }

    /// The message.
    pub fn text(&self) -> (r: &str)
        ensures
            r@ == self@.message,
    {
        self.message.as_str()
    }
}

impl Clone for DnsError {
    fn clone(&self) -> (r: DnsError)
        ensures
            r@ == self@,
    {
        DnsError { kind: self.kind, message: self.message.clone() }
    }
}

/// A well-formed name without dots around it, in lower case.
pub open spec fn is_name(s: Seq<char>) -> bool {
    domain_set::valid(s) && domain_set::normalized(s) == s
}

/// Reads a name, whatever its case, with or without dots around it.
pub fn normalize_name(name: &[char]) -> (r: Result<String, DnsError>)
    ensures
        match r {
            Ok(n) => n@ == domain_set::normalized(name@) && is_name(n@),
            Err(e) => !domain_set::valid(domain_set::normalized(name@)) && e@ == dns_failure(
                DnsErrorKind::InvalidName,
                "invalid DNS name"@,
            ),
        },
{
    let low = text::lower_of(text::trim_of(name, Class::Is('.')));
    if domain_set::is_valid(low.as_slice()) {
        proof {
            domain_set::law_normalizing_is_idempotent(name@);
        }
        Ok(text::to_text(low.as_slice()))
    } else {
        Err(DnsError::new(DnsErrorKind::InvalidName, "invalid DNS name"))
    }
}

/// A question for the addresses of a name.
#[derive(Debug, PartialEq, Eq)]
pub struct DnsQuery {
    name: String,
}

impl View for DnsQuery {
    type V = Seq<char>;

    closed spec fn view(&self) -> Seq<char> {
        self.name@
    }
}

impl DnsQuery {
    #[verifier::type_invariant]
    spec fn wf(self) -> bool {
        is_name(self.name@)
    }

    pub fn new(name: &str) -> (r: Result<DnsQuery, DnsError>)
        ensures
            match r {
                Ok(q) => q@ == domain_set::normalized(name@) && is_name(q@),
                Err(e) => !domain_set::valid(domain_set::normalized(name@)) && e@ == dns_failure(
                    DnsErrorKind::InvalidName,
                    "invalid DNS name"@,
                ),
            },
    {
        let chars = text::chars_of(name);
        match normalize_name(chars.as_slice()) {
            Ok(name) => Ok(DnsQuery { name }),
            Err(e) => Err(e),
        }
    }

    pub fn name(&self) -> (r: &str)
        ensures
            r@ == self@,
            is_name(r@),
    {
        proof {
            use_type_invariant(self);
        }
        self.name.as_str()
    }
}

impl Clone for DnsQuery {
    fn clone(&self) -> (r: DnsQuery)
        ensures
            r@ == self@,
    {
        proof {
            use_type_invariant(self);
        }
        DnsQuery { name: self.name.clone() }
    }
}

/// The first sixteen distinct addresses, in order.
pub open spec fn distinct(s: Seq<IpAddr>) -> Seq<IpAddr>
    decreases s.len(),
{
    if s.len() == 0 {
        Seq::empty()
    } else {
        let d = distinct(s.drop_last());
        if d.len() >= 16 || d.contains(s.last()) {
            d
        } else {
            d.push(s.last())
        }
    }
}

/// One to sixteen addresses, none of them twice.
pub open spec fn is_address_list(s: Seq<IpAddr>) -> bool {
    1 <= s.len() <= 16 && s.no_duplicates()
}

pub proof fn lemma_distinct(s: Seq<IpAddr>)
    ensures
        distinct(s).len() <= 16,
        distinct(s).no_duplicates(),
        s.len() > 0 ==> distinct(s).len() > 0,
        forall|a: IpAddr| distinct(s).contains(a) ==> s.contains(a),
    decreases s.len(),
{
    if s.len() > 0 {
        let p = s.drop_last();
        lemma_distinct(p);
        assert(s == p.push(s.last()));
        assert forall|a: IpAddr| distinct(s).contains(a) implies s.contains(a) by {
            let d = distinct(s);
            let i = choose|i: int| 0 <= i < d.len() && d[i] == a;
            if i < distinct(p).len() {
                assert(distinct(p)[i] == a);
                assert(distinct(p).contains(a));
                assert(p.contains(a));
                let j = choose|j: int| 0 <= j < p.len() && p[j] == a;
                assert(s[j] == a);
            } else {
                assert(s[s.len() - 1] == a);
            }
        }
    }
}

/// A list of distinct addresses that is short enough stays as it is.
pub proof fn lemma_distinct_fixed(s: Seq<IpAddr>)
    requires
        s.len() <= 16,
        s.no_duplicates(),
    ensures
        distinct(s) == s,
    decreases s.len(),
{
    if s.len() > 0 {
        lemma_distinct_fixed(s.drop_last());
        assert(s == s.drop_last().push(s.last()));
        assert(!s.drop_last().contains(s.last()));
    }
}

/// Whether the list holds the address.
pub fn holds_address(list: &[IpAddr], address: IpAddr) -> (r: bool)
    ensures
        r == list@.contains(address),
{
    let mut i: usize = 0;
    while i < list.len()
        invariant
            i <= list@.len(),
            forall|j: int| 0 <= j < i ==> list@[j] != address,
        decreases list@.len() - i,
    {
        if list[i] == address {
            assert(list@[i as int] == address);
            return true;
        }
        i = i + 1;
    }
    false
}

/// A copy of the list.
pub fn copy_addresses(list: &[IpAddr]) -> (r: Vec<IpAddr>)
    ensures
        r@ == list@,
{
    let mut out: Vec<IpAddr> = Vec::new();
    let mut i: usize = 0;
    while i < list.len()
        invariant
            i <= list@.len(),
            out@ == list@.take(i as int),
        decreases list@.len() - i,
    {
        out.push(list[i]);
        i = i + 1;
        assert(list@.take(i as int) == list@.take(i - 1).push(list@[i - 1]));
    }
    assert(list@.take(i as int) == list@);
    out
}

/// Drops duplicates and everything behind the sixteenth distinct address.
pub fn deduplicate_bounded(addresses: &[IpAddr]) -> (r: Vec<IpAddr>)
    ensures
        r@ == distinct(addresses@),
{
    let mut result: Vec<IpAddr> = Vec::new();
    let mut i: usize = 0;
    while i < addresses.len()
        invariant
            i <= addresses@.len(),
            result@ == distinct(addresses@.take(i as int)),
        decreases addresses@.len() - i,
    {
        assert(addresses@.take(i + 1).drop_last() == addresses@.take(i as int));
        let address = addresses[i];
        if result.len() < MAX_RESOLVED_ADDRESSES && !holds_address(result.as_slice(), address) {
            result.push(address);
        }
        i = i + 1;
    }
    assert(addresses@.take(i as int) == addresses@);
    result
}

/// Addresses with the time for which they may be kept.
#[derive(Debug, PartialEq, Eq)]
pub struct DnsAnswer {
    addresses: Vec<IpAddr>,
    ttl: Option<Duration>,
}

#[verifier::ext_equal]
pub struct AnswerView {
    pub addresses: Seq<IpAddr>,
    pub ttl: Option<Duration>,
}

impl View for DnsAnswer {
    type V = AnswerView;

    closed spec fn view(&self) -> AnswerView {
        AnswerView { addresses: self.addresses@, ttl: self.ttl }
    }
}

/// The answer that a list of addresses makes.
pub open spec fn answer(addresses: Seq<IpAddr>, ttl: Option<Duration>) -> Result<
    AnswerView,
    DnsErrorView,
> {
    if addresses.len() == 0 {
        Err(dns_failure(DnsErrorKind::NoRecords, "DNS answer contains no usable addresses"@))
    } else {
        Ok(AnswerView { addresses: distinct(addresses), ttl })
    }
}

/// A returned answer or error is the one that the model gives.
pub open spec fn answers(
    r: Result<DnsAnswer, DnsError>,
    m: Result<AnswerView, DnsErrorView>,
) -> bool {
    match (r, m) {
        (Ok(a), Ok(v)) => a@ == v,
        (Err(e), Err(v)) => e@ == v,
        _ => false,
    }
}

impl DnsAnswer {
    #[verifier::type_invariant]
    spec fn wf(self) -> bool {
        is_address_list(self.addresses@)
    }

    pub fn new(addresses: Vec<IpAddr>, ttl: Option<Duration>) -> (r: Result<DnsAnswer, DnsError>)
        ensures
            answers(r, answer(addresses@, ttl)),
            r matches Ok(a) ==> is_address_list(a@.addresses),
    {
        let list = deduplicate_bounded(addresses.as_slice());
        proof {
            lemma_distinct(addresses@);
        }
        if list.len() == 0 {
            return Err(
                DnsError::new(DnsErrorKind::NoRecords, "DNS answer contains no usable addresses"),
            );
        }
        Ok(DnsAnswer { addresses: list, ttl })
    }

    pub fn addresses(&self) -> (r: &[IpAddr])
        ensures
            r@ == self@.addresses,
            is_address_list(r@),
    {
        proof {
            use_type_invariant(self);
        }
        self.addresses.as_slice()
    }

    pub fn ttl(&self) -> (r: Option<Duration>)
        ensures
            r == self@.ttl,
    {
        self.ttl
    }

    pub fn into_parts(self) -> (r: (Vec<IpAddr>, Option<Duration>))
        ensures
            r.0@ == self@.addresses,
            r.1 == self@.ttl,
            is_address_list(r.0@),
    {
        proof {
            use_type_invariant(&self);
        }
        (self.addresses, self.ttl)
    }
}

impl Clone for DnsAnswer {
    fn clone(&self) -> (r: DnsAnswer)
        ensures
            r@ == self@,
    {
        proof {
            use_type_invariant(self);
        }
        DnsAnswer { addresses: copy_addresses(self.addresses.as_slice()), ttl: self.ttl }
    }
}

/// The shorter of the two times, where there are two.
pub open spec fn shortest(current: Option<Duration>, candidate: Duration) -> Duration {
    match current {
        Some(c) => c.spec_min(candidate),
        None => candidate,
    }
}

pub fn min_ttl(current: Option<Duration>, candidate: Duration) -> (r: Duration)
    ensures
        r == shortest(current, candidate),
{
    match current {
        Some(c) => c.shorter(candidate),
        None => candidate,
    }
}

/// An answer lists the distinct addresses that it was made of: those of a list without
/// repetitions in their order, all of them while there is room for sixteen, and never
/// anything else.
pub proof fn law_answer_lists_its_addresses(s: Seq<IpAddr>, ttl: Option<Duration>)
    ensures
        answer(s, ttl) is Err <==> s.len() == 0,
        answer(s, ttl) matches Ok(a) ==> {
            &&& a.ttl == ttl
            &&& is_address_list(a.addresses)
            &&& a.addresses[0] == s[0]
            &&& forall|x: IpAddr| #[trigger] a.addresses.contains(x) ==> s.contains(x)
            &&& forall|x: IpAddr|
                s.contains(x) ==> #[trigger] a.addresses.contains(x) || a.addresses.len() == 16
            &&& s.no_duplicates() ==> a.addresses == s.take(
                if s.len() < 16 {
                    s.len() as int
                } else {
                    16
                },
            )
        },
    decreases s.len(),
{
    lemma_distinct(s);
    if s.len() > 0 {
        let p = s.drop_last();
        let d = distinct(p);
        law_answer_lists_its_addresses(p, ttl);
        lemma_distinct(p);
        assert(s =~= p.push(s.last()));
        if p.len() == 0 {
            assert(d =~= Seq::<IpAddr>::empty());
            assert(distinct(s) =~= s);
        } else {
            assert(distinct(s)[0] == d[0]);
        }
        assert forall|x: IpAddr| s.contains(x) implies #[trigger] distinct(s).contains(x)
            || distinct(s).len() == 16 by {
            let k = s.index_of(x);
            if k < p.len() {
                assert(p[k] == x);
                assert(p.contains(x));
                if d.contains(x) {
                    let j = d.index_of(x);
                    assert(distinct(s)[j] == x);
                }
            } else if d.len() < 16 && !d.contains(x) {
                assert(distinct(s)[d.len() as int] == x);
            }
        }
        if s.no_duplicates() {
            assert(p.no_duplicates());
            if s.len() <= 16 {
                lemma_distinct_fixed(s);
                assert(s.take(s.len() as int) =~= s);
            } else {
                assert(d == p.take(16));
                assert(s.take(16) =~= p.take(16));
            }
        }
    }
}

/// The shorter of two times is one of them, and no longer than either.
pub proof fn law_shortest_time(current: Option<Duration>, candidate: Duration)
    ensures
        shortest(current, candidate).nanos <= candidate.nanos,
        current matches Some(c) ==> shortest(current, candidate).nanos <= c.nanos,
        shortest(current, candidate) == candidate || current == Some(
            shortest(current, candidate),
        ),
{
}

/// A query is for the name in lower case and without the dot at its end, where that is a name.
pub proof fn law_queries_are_for_normalized_names(name: &str, r: Result<DnsQuery, DnsError>)
    requires
        call_ensures(DnsQuery::new, (name,), r),
    ensures
        r is Ok <==> domain_set::valid(domain_set::normalized(name@)),
        r matches Ok(q) ==> q@ == domain_set::normalized(name@),
        r matches Err(e) ==> e@.kind == DnsErrorKind::InvalidName,
{
}

} // verus!
