use std::sync::atomic::{AtomicUsize, Ordering};
use std::sync::Arc;

use commeatus::dns::cache::DnsCache;
use commeatus::dns::dot::{
    combine_families, family_answer, frame_request, response_length, DotAction, DotEvent,
    DotResolver,
};
use commeatus::dns::engine::{system_answer, system_failure, DnsEngine, Resolver};
use commeatus::dns::hosts::HostsTable;
use commeatus::dns::wire::{
    decode_name, encode_address_query, parse_address_response, AddressRecordType,
    DNS_HEADER_BYTES,
};
use commeatus::dns::{DnsAnswer, DnsError, DnsErrorKind, DnsQuery, MAX_RESOLVED_ADDRESSES};
use commeatus::flow::DestinationHost;
use commeatus::net::{IpAddr, SocketAddr};
use commeatus::proxy::{resolve_target, Target};
use commeatus::time::{Duration, Instant};

const FLAG_QR: u16 = 0x8000;
const FLAG_RD: u16 = 0x0100;
const RCODE_MASK: u16 = 0x000f;
const CLASS_IN: u16 = 1;
const TYPE_A: u16 = 1;
const TYPE_CNAME: u16 = 5;
const TYPE_AAAA: u16 = 28;

const NOW: Instant = Instant { nanos: 0 };

struct StaticResolver {
    answer: Option<(IpAddr, Option<Duration>)>,
    calls: AtomicUsize,
}

impl StaticResolver {
    fn success(address: &str) -> Self {
        Self::success_with_ttl(address, None)
    }

    fn success_with_ttl(address: &str, ttl: Option<Duration>) -> Self {
        Self {
            answer: Some((address.parse().unwrap(), ttl)),
            calls: AtomicUsize::new(0),
        }
    }

    fn failure() -> Self {
        Self {
            answer: None,
            calls: AtomicUsize::new(0),
        }
    }

    fn calls(&self) -> usize {
        self.calls.load(Ordering::Relaxed)
    }
}

impl Resolver for StaticResolver {
    fn resolve(&self, _query: &DnsQuery) -> Result<DnsAnswer, DnsError> {
        self.calls.fetch_add(1, Ordering::Relaxed);
        match self.answer {
            Some((address, ttl)) => DnsAnswer::new(vec![address], ttl),
            None => Err(DnsError::new(
                DnsErrorKind::ResolverFailure,
                "synthetic resolver failure",
            )),
        }
    }
}

fn engine(hosts: HostsTable, resolvers: Vec<Arc<dyn Resolver>>) -> DnsEngine {
    DnsEngine::with_resolvers(hosts, resolvers, 16, Duration::from_secs(60)).unwrap()
}

#[test]
fn hosts_override_resolves_before_network_resolver() {
    let hosts = HostsTable::parse("203.0.113.9 service.example\n").unwrap();
    let resolver = Arc::new(StaticResolver::failure());
    let mut engine = engine(hosts, vec![resolver.clone()]);
    assert_eq!(
        engine.resolve("SERVICE.EXAMPLE.", NOW).unwrap(),
        vec!["203.0.113.9".parse::<IpAddr>().unwrap()]
    );
    assert_eq!(resolver.calls(), 0);
    assert_eq!(engine.stats().hosts_hits, 1);
    assert_eq!(engine.hosts_len(), 1);
}

#[test]
fn long_lists_of_addresses_are_cut() {
    let mut text = String::new();
    for last in 1..=20 {
        text.push_str(&format!("192.0.2.{last} many.example\n"));
    }
    let hosts = HostsTable::parse(&text).unwrap();
    assert_eq!(hosts.resolve("many.example").unwrap().len(), 20);
    let mut engine = engine(hosts, vec![Arc::new(StaticResolver::failure())]);
    let addresses = engine.resolve("many.example", NOW).unwrap();
    assert_eq!(addresses.len(), 16);
    assert_eq!(addresses[15], "192.0.2.16".parse::<IpAddr>().unwrap());
}

#[test]
fn successful_resolution_is_cached() {
    let resolver = Arc::new(StaticResolver::success("198.51.100.8"));
    let mut engine = engine(HostsTable::default(), vec![resolver.clone()]);
    assert_eq!(engine.resolve("cache.example", NOW).unwrap().len(), 1);
    assert_eq!(engine.resolve("cache.example", NOW).unwrap().len(), 1);
    assert_eq!(resolver.calls(), 1);
    assert_eq!(engine.stats().cache_hits, 1);
}

#[test]
fn cached_answers_expire() {
    let resolver = Arc::new(StaticResolver::success_with_ttl(
        "198.51.100.8",
        Some(Duration::from_secs(5)),
    ));
    let mut engine = engine(HostsTable::default(), vec![resolver.clone()]);
    engine.resolve("cache.example", NOW).unwrap();
    engine.resolve("cache.example", Instant { nanos: 4_999_999_999 }).unwrap();
    assert_eq!(resolver.calls(), 1);
    engine.resolve("cache.example", Instant { nanos: 5_000_000_000 }).unwrap();
    assert_eq!(resolver.calls(), 2);
}

#[test]
fn resolver_zero_ttl_is_not_cached() {
    let resolver = Arc::new(StaticResolver::success_with_ttl(
        "198.51.100.9",
        Some(Duration { nanos: 0 }),
    ));
    let mut engine = engine(HostsTable::default(), vec![resolver.clone()]);
    assert_eq!(engine.resolve("volatile.example", NOW).unwrap().len(), 1);
    assert_eq!(engine.resolve("volatile.example", NOW).unwrap().len(), 1);
    assert_eq!(resolver.calls(), 2);
    assert_eq!(engine.stats().cache_hits, 0);
}

#[test]
fn resolver_failure_falls_through_to_next_resolver() {
    let failed = Arc::new(StaticResolver::failure());
    let working = Arc::new(StaticResolver::success("192.0.2.44"));
    let mut engine = engine(HostsTable::default(), vec![failed.clone(), working.clone()]);
    assert_eq!(
        engine.resolve("fallback.example", NOW).unwrap(),
        vec!["192.0.2.44".parse::<IpAddr>().unwrap()]
    );
    assert_eq!(failed.calls(), 1);
    assert_eq!(working.calls(), 1);
    assert_eq!(engine.stats().resolver_failures, 1);
}

#[test]
fn the_last_failure_is_the_answer_of_the_chain() {
    let only = Arc::new(StaticResolver::failure());
    let mut engine = engine(HostsTable::default(), vec![only.clone()]);
    let error = engine.resolve("down.example", NOW).unwrap_err();
    assert_eq!(error.kind(), DnsErrorKind::ResolverFailure);
    assert_eq!(engine.stats().resolver_failures, 1);
    assert_eq!(
        engine.resolve("bad..name", NOW).unwrap_err().kind(),
        DnsErrorKind::InvalidName
    );
}

#[test]
fn engines_need_resolvers_and_a_sound_cache() {
    let error = DnsEngine::with_resolvers(
        HostsTable::default(),
        Vec::new(),
        16,
        Duration::from_secs(60),
    )
    .err()
    .unwrap();
    assert_eq!(error.kind(), DnsErrorKind::NoResolvers);
    let error = DnsEngine::with_resolvers(
        HostsTable::default(),
        vec![Arc::new(StaticResolver::failure())],
        16,
        Duration::from_secs(301),
    )
    .err()
    .unwrap();
    assert_eq!(error.kind(), DnsErrorKind::InvalidConfiguration);
}

#[test]
fn hosts_parser_accepts_multiple_names_and_addresses() {
    let mut hosts =
        HostsTable::parse("127.0.0.1 localhost local.test\n::1 localhost local.test\n").unwrap();
    let extra = HostsTable::parse("192.0.2.1 other.test\n").unwrap();
    hosts.merge(extra);
    assert_eq!(hosts.resolve("localhost").unwrap().len(), 2);
    assert_eq!(hosts.resolve("local.test").unwrap().len(), 2);
    assert_eq!(hosts.resolve("other.test").unwrap().len(), 1);
}

#[test]
fn joined_hosts_texts_make_the_merged_table() {
    let texts = [
        ("", "192.0.2.1 one.test"),
        ("192.0.2.1 one.test # first\r", "192.0.2.2 one.test two.test\n192.0.2.1 one.test"),
        ("192.0.2.3 two.test\n\n", "::1 two.test\n192.0.2.3 two.test three.test\n"),
    ];
    for (a, b) in texts {
        let mut merged = HostsTable::parse(a).unwrap();
        merged.merge(HostsTable::parse(b).unwrap());
        let joined = HostsTable::parse(&format!("{a}\n{b}")).unwrap();
        assert_eq!(joined.len(), merged.len());
        for name in ["one.test", "two.test", "three.test"] {
            assert_eq!(joined.resolve(name), merged.resolve(name));
        }
    }
}

#[test]
fn full_caches_drop_the_oldest_fresh_answer() {
    let mut cache = DnsCache::new(2, Duration::from_secs(60)).unwrap();
    let many: Vec<IpAddr> = (1..=20)
        .map(|last| format!("192.0.2.{last}").parse().unwrap())
        .collect();
    cache.insert("old.test", &many, None, NOW);
    cache.insert("mid.test", &many[..1], None, Instant { nanos: 1 });
    cache.insert("mid.test", &many[..2], None, Instant { nanos: 2 });
    assert_eq!(cache.get("old.test", Instant { nanos: 3 }).unwrap(), many);
    cache.insert("new.test", &many[..3], None, Instant { nanos: 3 });
    let later = Instant { nanos: 4 };
    assert!(cache.get("old.test", later).is_none());
    assert_eq!(cache.get("mid.test", later).unwrap().len(), 2);
    assert_eq!(cache.get("new.test", later).unwrap().len(), 3);
}

#[test]
fn names_are_read_from_long_buffers() {
    let mut buffer = vec![0_u8; 70_000];
    buffer.extend_from_slice(b"\x03Www\x04test\x00");
    assert_eq!(
        decode_name(&buffer, 70_000).unwrap(),
        ("www.test".to_owned(), buffer.len())
    );
    let end = buffer.len();
    buffer[end - 1] = 63;
    assert_eq!(
        decode_name(&buffer, 70_000).unwrap_err().text(),
        "DNS label is truncated"
    );
}

#[test]
fn invalid_hosts_name_is_classified_as_hosts_parse() {
    let error = HostsTable::parse("127.0.0.1 bad..name\n").err().unwrap();
    assert_eq!(error.kind(), DnsErrorKind::HostsParse);
    assert_eq!(error.text(), "hosts line 1: invalid hostname");
}

/// Stands for the resolver of the system, which finds the loopback addresses.
struct LocalResolver;

impl Resolver for LocalResolver {
    fn resolve(&self, query: &DnsQuery) -> Result<DnsAnswer, DnsError> {
        if query.name() == "localhost" {
            let listed: Vec<IpAddr> = vec![
                "127.0.0.1".parse().unwrap(),
                "::1".parse().unwrap(),
                "127.0.0.1".parse().unwrap(),
            ];
            system_answer(query, &listed)
        } else {
            Err(system_failure(query, "not found"))
        }
    }
}

#[test]
fn system_resolver_handles_localhost() {
    let mut engine = DnsEngine::system(HostsTable::default(), vec![Arc::new(LocalResolver)]);
    assert!(!engine.resolve("localhost", NOW).unwrap().is_empty());
    let error = engine.resolve("other.test", NOW).unwrap_err();
    assert_eq!(error.kind(), DnsErrorKind::ResolverFailure);
}

#[test]
fn resolver_deduplicates_and_bounds_addresses() {
    let mut engine = DnsEngine::system(HostsTable::default(), vec![Arc::new(LocalResolver)]);
    let target = Target::new(DestinationHost::Domain("localhost".to_owned()), 80).unwrap();
    let addresses = resolve_target(&target, &mut engine, NOW).unwrap();
    assert!(!addresses.is_empty());
    assert!(addresses.len() <= MAX_RESOLVED_ADDRESSES);
    let mut unique: Vec<String> = addresses.iter().map(|a| a.text()).collect();
    unique.sort_unstable();
    unique.dedup();
    assert_eq!(unique.len(), addresses.len());
}

fn push_u16(output: &mut Vec<u8>, value: u16) {
    output.extend_from_slice(&value.to_be_bytes());
}

fn read_u16(message: &[u8], offset: usize) -> u16 {
    u16::from_be_bytes([message[offset], message[offset + 1]])
}

fn question(name: &str, record_type: AddressRecordType) -> Vec<u8> {
    let query = DnsQuery::new(name).unwrap();
    let encoded = encode_address_query(0x1234, &query, record_type).unwrap();
    encoded[DNS_HEADER_BYTES..].to_vec()
}

fn response_header(id: u16, answer_count: u16, rcode: u16) -> Vec<u8> {
    let mut response = Vec::new();
    push_u16(&mut response, id);
    push_u16(&mut response, FLAG_QR | FLAG_RD | (rcode & RCODE_MASK));
    push_u16(&mut response, 1);
    push_u16(&mut response, answer_count);
    push_u16(&mut response, 0);
    push_u16(&mut response, 0);
    response
}

fn push_pointer_name(output: &mut Vec<u8>, offset: u16) {
    output.push(0xc0 | ((offset >> 8) as u8 & 0x3f));
    output.push(offset as u8);
}

fn push_rr_header(output: &mut Vec<u8>, rr_type: u16, ttl: u32, rdlength: u16) {
    push_u16(output, rr_type);
    push_u16(output, CLASS_IN);
    output.extend_from_slice(&ttl.to_be_bytes());
    push_u16(output, rdlength);
}

#[test]
fn query_encoding_preserves_id_name_and_family() {
    let query = DnsQuery::new("Api.Example.").unwrap();
    let message = encode_address_query(0xbeef, &query, AddressRecordType::Aaaa).unwrap();
    assert_eq!(&message[..2], &[0xbe, 0xef]);
    assert_eq!(read_u16(&message, 2), FLAG_RD);
    assert_eq!(read_u16(&message, 4), 1);
    assert_eq!(&message[12..25], b"\x03api\x07example\x00");
    assert_eq!(read_u16(&message, 25), TYPE_AAAA);
    assert_eq!(read_u16(&message, 27), CLASS_IN);
}

#[test]
fn compressed_a_response_preserves_ttl() {
    let query = DnsQuery::new("a.example").unwrap();
    let mut response = response_header(0x1234, 1, 0);
    response.extend_from_slice(&question("a.example", AddressRecordType::A));
    push_pointer_name(&mut response, 12);
    push_rr_header(&mut response, TYPE_A, 90, 4);
    response.extend_from_slice(&[203, 0, 113, 9]);

    let answer = parse_address_response(0x1234, &query, AddressRecordType::A, &response).unwrap();
    assert_eq!(answer.addresses(), &["203.0.113.9".parse::<IpAddr>().unwrap()]);
    assert_eq!(answer.ttl(), Some(Duration::from_secs(90)));
}

#[test]
fn aaaa_response_is_supported() {
    let query = DnsQuery::new("v6.example").unwrap();
    let mut response = response_header(0x1234, 1, 0);
    response.extend_from_slice(&question("v6.example", AddressRecordType::Aaaa));
    push_pointer_name(&mut response, 12);
    push_rr_header(&mut response, TYPE_AAAA, 120, 16);
    response.extend_from_slice(&1_u128.to_be_bytes());

    let answer =
        parse_address_response(0x1234, &query, AddressRecordType::Aaaa, &response).unwrap();
    assert_eq!(answer.addresses(), &["::1".parse::<IpAddr>().unwrap()]);
    assert_eq!(answer.ttl(), Some(Duration::from_secs(120)));
}

#[test]
fn cname_chain_bounds_effective_ttl() {
    let query = DnsQuery::new("alias.example").unwrap();
    let mut response = response_header(0x1234, 2, 0);
    response.extend_from_slice(&question("alias.example", AddressRecordType::A));

    push_pointer_name(&mut response, 12);
    let cname_target = b"\x06target\x07example\x00";
    push_rr_header(&mut response, TYPE_CNAME, 30, cname_target.len() as u16);
    response.extend_from_slice(cname_target);

    let owner_offset = response.len();
    response.extend_from_slice(cname_target);
    push_rr_header(&mut response, TYPE_A, 90, 4);
    response.extend_from_slice(&[192, 0, 2, 44]);
    assert!(owner_offset < 0x4000);

    let answer = parse_address_response(0x1234, &query, AddressRecordType::A, &response).unwrap();
    assert_eq!(answer.addresses(), &["192.0.2.44".parse::<IpAddr>().unwrap()]);
    assert_eq!(answer.ttl(), Some(Duration::from_secs(30)));
}

#[test]
fn an_answer_is_kept_no_longer_than_an_address_behind_an_alias() {
    let query = DnsQuery::new("alias.example").unwrap();
    let target = b"\x06target\x07example\x00";
    let mut response = response_header(0x1234, 3, 0);
    response.extend_from_slice(&question("alias.example", AddressRecordType::A));
    push_pointer_name(&mut response, 12);
    push_rr_header(&mut response, TYPE_CNAME, 90, target.len() as u16);
    response.extend_from_slice(target);
    response.extend_from_slice(target);
    push_rr_header(&mut response, TYPE_A, 60, 4);
    response.extend_from_slice(&[192, 0, 2, 44]);
    response.extend_from_slice(target);
    push_rr_header(&mut response, TYPE_A, 20, 4);
    response.extend_from_slice(&[192, 0, 2, 45]);

    let answer = parse_address_response(0x1234, &query, AddressRecordType::A, &response).unwrap();
    assert_eq!(answer.addresses().len(), 2);
    assert_eq!(answer.ttl(), Some(Duration::from_secs(20)));
}

#[test]
fn unrelated_address_record_is_not_accepted() {
    let query = DnsQuery::new("wanted.example").unwrap();
    let mut response = response_header(0x1234, 1, 0);
    response.extend_from_slice(&question("wanted.example", AddressRecordType::A));
    response.extend_from_slice(b"\x09unrelated\x07example\x00");
    push_rr_header(&mut response, TYPE_A, 60, 4);
    response.extend_from_slice(&[192, 0, 2, 1]);

    let error =
        parse_address_response(0x1234, &query, AddressRecordType::A, &response).unwrap_err();
    assert_eq!(error.kind(), DnsErrorKind::NoRecords);
}

#[test]
fn zero_ttl_is_preserved_for_cache_policy() {
    let query = DnsQuery::new("volatile.example").unwrap();
    let mut response = response_header(0x1234, 1, 0);
    response.extend_from_slice(&question("volatile.example", AddressRecordType::A));
    push_pointer_name(&mut response, 12);
    push_rr_header(&mut response, TYPE_A, 0, 4);
    response.extend_from_slice(&[198, 51, 100, 8]);

    let answer = parse_address_response(0x1234, &query, AddressRecordType::A, &response).unwrap();
    assert_eq!(answer.ttl(), Some(Duration { nanos: 0 }));
}

#[test]
fn nxdomain_is_no_records_not_transport_failure() {
    let query = DnsQuery::new("missing.example").unwrap();
    let mut response = response_header(0x1234, 0, 3);
    response.extend_from_slice(&question("missing.example", AddressRecordType::A));
    let error =
        parse_address_response(0x1234, &query, AddressRecordType::A, &response).unwrap_err();
    assert_eq!(error.kind(), DnsErrorKind::NoRecords);
}

#[test]
fn transaction_id_mismatch_is_invalid_response() {
    let query = DnsQuery::new("id.example").unwrap();
    let mut response = response_header(0x9999, 0, 0);
    response.extend_from_slice(&question("id.example", AddressRecordType::A));
    let error =
        parse_address_response(0x1234, &query, AddressRecordType::A, &response).unwrap_err();
    assert_eq!(error.kind(), DnsErrorKind::InvalidResponse);
}

#[test]
fn compression_pointer_loop_is_rejected() {
    let query = DnsQuery::new("loop.example").unwrap();
    let mut response = response_header(0x1234, 1, 0);
    response.extend_from_slice(&question("loop.example", AddressRecordType::A));
    let owner_offset = response.len();
    push_pointer_name(&mut response, owner_offset as u16);
    push_rr_header(&mut response, TYPE_A, 60, 4);
    response.extend_from_slice(&[127, 0, 0, 1]);
    let error =
        parse_address_response(0x1234, &query, AddressRecordType::A, &response).unwrap_err();
    assert_eq!(error.kind(), DnsErrorKind::InvalidResponse);
}

/// A server that answers one framed request at a time.
struct ScriptedServer {
    connects: usize,
    failures: usize,
}

impl ScriptedServer {
    fn answer(&self, frame: &[u8]) -> Vec<u8> {
        assert_eq!(response_length(&frame[..2]).unwrap(), frame.len() - 2);
        let query = &frame[2..];
        let kind = read_u16(query, query.len() - 4);
        let mut response = Vec::new();
        response.extend_from_slice(&query[..2]);
        push_u16(&mut response, FLAG_QR | FLAG_RD);
        push_u16(&mut response, 1);
        push_u16(&mut response, 1);
        push_u16(&mut response, 0);
        push_u16(&mut response, 0);
        response.extend_from_slice(&query[DNS_HEADER_BYTES..]);
        push_pointer_name(&mut response, 12);
        if kind == TYPE_A {
            push_rr_header(&mut response, TYPE_A, 120, 4);
            response.extend_from_slice(&[203, 0, 113, 8]);
        } else {
            push_rr_header(&mut response, TYPE_AAAA, 45, 16);
            let address: u128 = 0x2001_0db8_0000_0000_0000_0000_0000_0008;
            response.extend_from_slice(&address.to_be_bytes());
        }
        response
    }

    /// Carries out one exchange of the resolver.
    fn exchange(
        &mut self,
        resolver: &mut DotResolver,
        query: &DnsQuery,
        kind: AddressRecordType,
    ) -> Result<DnsAnswer, DnsError> {
        let (id, mut exchange) = resolver.begin(query, kind);
        let mut action = exchange.action();
        loop {
            let event = match action {
                DotAction::Connect => {
                    self.connects += 1;
                    DotEvent::Connected
                }
                DotAction::Exchange(frame) => {
                    if self.failures > 0 {
                        self.failures -= 1;
                        DotEvent::ExchangeFailed("connection closed".to_owned())
                    } else {
                        DotEvent::Received(self.answer(&frame))
                    }
                }
                DotAction::Done(message) => {
                    return resolver.finish(id, query, kind, exchange, Ok(message));
                }
                DotAction::Fail(error) => {
                    return resolver.finish(id, query, kind, exchange, Err(error));
                }
            };
            action = exchange.step(event);
        }
    }

    fn resolve(&mut self, resolver: &mut DotResolver, name: &str) -> Result<DnsAnswer, DnsError> {
        let query = DnsQuery::new(name).unwrap();
        let a = self.exchange(resolver, &query, AddressRecordType::A);
        let aaaa = self.exchange(resolver, &query, AddressRecordType::Aaaa);
        combine_families(a, aaaa)
    }
}

fn dot_resolver() -> DotResolver {
    DotResolver::webpki("192.0.2.53:853".parse::<SocketAddr>().unwrap(), "dns.example").unwrap()
}

#[test]
fn resolver_reuses_one_stream_and_combines_a_aaaa_with_minimum_ttl() {
    let mut resolver = dot_resolver();
    let mut server = ScriptedServer {
        connects: 0,
        failures: 0,
    };
    let answer = server.resolve(&mut resolver, "secure.example").unwrap();
    assert_eq!(
        answer.addresses(),
        &[
            "203.0.113.8".parse::<IpAddr>().unwrap(),
            "2001:db8::8".parse::<IpAddr>().unwrap(),
        ]
    );
    assert_eq!(answer.ttl(), Some(Duration::from_secs(45)));
    assert_eq!(server.connects, 1);
}

#[test]
fn a_broken_stream_is_replaced_once() {
    let mut resolver = dot_resolver();
    let mut server = ScriptedServer {
        connects: 0,
        failures: 1,
    };
    assert!(server.resolve(&mut resolver, "secure.example").is_ok());
    assert_eq!(server.connects, 2);

    let mut resolver = dot_resolver();
    let mut server = ScriptedServer {
        connects: 0,
        failures: 4,
    };
    let error = server.resolve(&mut resolver, "secure.example").unwrap_err();
    assert_eq!(server.connects, 4);
    assert_eq!(error.kind(), DnsErrorKind::ResolverFailure);
    assert_eq!(
        error.text(),
        "DNS-over-TLS exchange failed after reconnect: connection closed"
    );
}

#[test]
fn requests_are_framed_by_their_length() {
    assert_eq!(frame_request(&[7; 300]).unwrap()[..3], [1, 44, 7]);
    let error = frame_request(&[0; 65536]).unwrap_err();
    assert_eq!(error.text(), "DNS-over-TLS request exceeds 65535 bytes");
    assert!(response_length(&[0, 11]).is_err());
    assert_eq!(response_length(&[0, 12]).unwrap(), 12);
}

#[test]
fn a_malformed_response_ends_the_stream() {
    let query = DnsQuery::new("secure.example").unwrap();
    let (answer, trusted) = family_answer(1, &query, AddressRecordType::A, &[0; 4]);
    assert_eq!(answer.unwrap_err().kind(), DnsErrorKind::InvalidResponse);
    assert!(!trusted);
}

#[test]
fn a_dot_server_needs_a_server_name() {
    let address: SocketAddr = "192.0.2.53:853".parse().unwrap();
    let error = DotResolver::webpki(address, "not a name").err().unwrap();
    assert_eq!(error.kind(), DnsErrorKind::InvalidConfiguration);
    assert_eq!(dot_resolver().transport().server_name(), "dns.example");
    assert_eq!(dot_resolver().transport().address(), address);
}
