//! Operations and their models: each operation of the library does what its model
//! says, whatever it is called with, so that what is proved of a model holds of the
//! operation.

use crate::blocklist;
use crate::blocklist::{BlocklistError, CompiledBlocklist};
use crate::cidr;
use crate::cidr::{CidrParseError, IpCidr};
use crate::cli;
use crate::cli::{Command, CommandView, UsageError, UsageErrorView};
use crate::config;
use crate::config::asset::Assets;
use crate::config::draft;
use crate::config::draft::{ListenerConfig, ResolverConfig, ResolverView};
use crate::config::{
    CompiledConfig, ConfigError, ConfigErrorView, ConfigStore, ConfigView, DnsResolverSummary,
};
use crate::datagram;
use crate::datagram::{
    DatagramRouteSet, DatagramSend, DatagramTokenAllocator, DirectDatagramAssociation,
    ReceiveEvent, ReceiveStep, ReceiveTurn, ReceivedDatagram, SendStep,
};
use crate::dispatch;
use crate::dispatch::StreamPlan;
use crate::dns;
use crate::dns::cache::DnsCache;
use crate::dns::dot;
use crate::dns::dot::{DotAction, DotEvent, DotExchange, DotResolver};
use crate::dns::engine;
use crate::dns::engine::{Consultation, DnsEngine, Lookup, Resolver};
use crate::dns::hosts;
use crate::dns::hosts::HostsTable;
use crate::dns::wire;
use crate::dns::wire::AddressRecordType;
use crate::dns::{DnsAnswer, DnsError, DnsQuery};
use crate::domain_set;
use crate::domain_set::{DomainFilter, DomainSet, DomainSetError};
use crate::error::{Error, ErrorView};
use crate::flow::{
    DestinationHost, DestinationView, FlowContext, FlowId, HostView, TransportProtocol,
};
use crate::http_connect;
use crate::http_connect::{HttpInbound, HttpStep};
use crate::net::{IpAddr, SocketAddr};
use crate::outbound;
use crate::outbound::{EndpointCapabilities, OutboundRegistry, ProxyEndpointConfig};
use crate::plan::{Endpoint, EndpointId, EndpointView, ExecutionPlan};
use crate::platform;
use crate::platform::{PlatformCapabilities, PlatformEvidence, PlatformKind};
use crate::policy;
use crate::policy::{Matcher, PolicyDecision, PolicyEngine};
use crate::protocol;
use crate::protocol::{Handshake, HandshakeStep, OutboundProtocol, ProtocolView, StepView};
use crate::proxy;
use crate::proxy::{ConnectAttempts, ConnectStep, FlowIds, Target};
use crate::runtime;
use crate::runtime::Runtime;
use crate::server;
use crate::server::{
    AcceptErrors, AcceptStep, ConnectionLimiter, ConnectionPermit, ListenerExit,
};
use crate::socks5;
use crate::socks5::relay::{RelayAction, RelayEvent, Surroundings, UdpRelay};
use crate::socks5::{InboundStep, Socks5Inbound};
use crate::time::{Duration, Instant};
use crate::transparent;
use crate::transparent::relay::{ListenerAction, ListenerEvent, TransparentRelay};
use crate::transport;
use crate::transport::{
    Closing, FramedReadiness, IoResult, IoStep, Pending, Readiness, RegistrationChange, RelayStep,
    TlsRelay, TlsWants,
};
use crate::trojan;
use crate::trojan::{FrameView, ParsedUdpFrame, TrojanVerifier};
use crate::trojan_datagram;
use crate::trojan_datagram::{
    SessionStep, SessionView, TrojanDatagramExecution, TrojanDatagramProvider,
};
use std::sync::Arc;
use vstd::prelude::*;

verus! {

/// The addresses of both families are one answer: one family is enough for it, and the error of
/// the second is told when neither answered.
pub proof fn law_answers_of_both_families_are_joined(
    a: Result<DnsAnswer, DnsError>,
    b: Result<DnsAnswer, DnsError>,
    r: Result<DnsAnswer, DnsError>,
)
    requires
        a matches Ok(x) ==> dns::is_address_list(x@.addresses),
        b matches Ok(y) ==> dns::is_address_list(y@.addresses),
        call_ensures(dot::combine_families, (a, b), r),
    ensures
        r is Ok <==> a is Ok || b is Ok,
        a is Err ==> engine::reply_of(r) == engine::reply_of(b),
        a is Ok && b is Err ==> engine::reply_of(r) == engine::reply_of(a),
        dns::answers(r, dot::combined(engine::reply_of(a), engine::reply_of(b))),
{
    dot::law_either_family_is_enough(engine::reply_of(a), engine::reply_of(b));
}

/// A question over TLS is numbered, asked and sent as its model says.
pub proof fn law_questions_begin_as_modelled(
    resolver: &mut DotResolver,
    query: &DnsQuery,
    kind: AddressRecordType,
    r: (u16, DotExchange),
)
    requires
        call_ensures(DotResolver::begin, (resolver, query, kind), r),
    ensures
        r.0 == old(resolver)@.next_id,
        r.1@ == old(resolver)@.exchange(query@, kind),
        r.1@.request == wire::query_message(r.0, query@, kind),
        final(resolver)@ == old(resolver)@.with_next_id(),
{
}

/// An exchange over TLS goes on as its model says.
pub proof fn law_exchanges_step_as_modelled(
    exchange: &mut DotExchange,
    event: DotEvent,
    r: DotAction,
)
    requires
        call_ensures(DotExchange::step, (exchange, event), r),
    ensures
        final(exchange)@ == old(exchange)@.after(event@),
        r@ == old(exchange)@.next(event@),
{
}

/// A question over TLS is answered with what its response says, or with the failure to get one.
pub proof fn law_questions_end_with_their_response(
    resolver: &mut DotResolver,
    id: u16,
    query: &DnsQuery,
    kind: AddressRecordType,
    exchange: DotExchange,
    outcome: Result<Vec<u8>, DnsError>,
    r: Result<DnsAnswer, DnsError>,
)
    requires
        call_ensures(DotResolver::finish, (resolver, id, query, kind, exchange, outcome), r),
    ensures
        outcome matches Ok(m) ==> dns::answers(r, wire::response(id, query@, kind, m@)) && final(
            resolver)@ == old(resolver)@.after_exchange(
            exchange@.connected,
            Some(wire::response(id, query@, kind, m@)),
        ),
        outcome matches Err(e) ==> (r matches Err(f) && f@ == e@) && final(resolver)@ == old(
            resolver)@.after_exchange(exchange@.connected, None),
{
}

/// A request is framed for a stream as its model says.
pub proof fn law_requests_are_framed_as_modelled(request: &[u8], r: Result<Vec<u8>, Error>)
    requires
        call_ensures(dot::frame_request, (request,), r),
    ensures
        trojan::written(r, dot::framed(request@)),
{
}

/// The length of a response is read from its prefix as its model says.
pub proof fn law_response_lengths_are_read_as_modelled(prefix: &[u8], r: Result<usize, Error>)
    requires
        call_ensures(dot::response_length, (prefix,), r),
    ensures
        r matches Ok(n) ==> dot::response_len(prefix@) == Ok::<nat, ErrorView>(n as nat),
        r matches Err(e) ==> dot::response_len(prefix@) == Err::<nat, ErrorView>(e@),
{
}

/// A query is written as its model says, and always can be.
pub proof fn law_queries_are_encoded_as_modelled(
    id: u16,
    query: &DnsQuery,
    kind: AddressRecordType,
    r: Result<Vec<u8>, DnsError>,
)
    requires
        call_ensures(wire::encode_address_query, (id, query, kind), r),
    ensures
        r matches Ok(m) && m@ == wire::query_message(id, query@, kind),
{
}

/// A response is read as its model says.
pub proof fn law_responses_are_read_as_modelled(
    id: u16,
    query: &DnsQuery,
    kind: AddressRecordType,
    message: &[u8],
    r: Result<DnsAnswer, DnsError>,
)
    requires
        call_ensures(wire::parse_address_response, (id, query, kind, message), r),
    ensures
        dns::answers(r, wire::response(id, query@, kind, message@)),
{
}

/// A hosts file is read as its model says.
pub proof fn law_hosts_are_read_as_modelled(source: &str, r: Result<HostsTable, DnsError>)
    requires
        call_ensures(HostsTable::parse, (source,), r),
    ensures
        r matches Ok(t) ==> (hosts::hosts(source@) matches Ok(v) && t@ == v.table),
        r matches Err(e) ==> (hosts::hosts(source@) matches Err(v) && e@ == v),
{
}

/// Two tables of hosts are merged as their model says.
pub proof fn law_hosts_are_merged_as_modelled(table: &mut HostsTable, other: HostsTable)
    requires
        call_ensures(HostsTable::merge, (table, other), ()),
    ensures
        final(table)@ == hosts::merged(old(table)@, other@),
{
}

/// The cache is asked as its model says.
pub proof fn law_cached_answers_are_looked_up_as_modelled(
    cache: &mut DnsCache,
    name: &str,
    now: Instant,
    r: Option<Vec<IpAddr>>,
)
    requires
        call_ensures(DnsCache::get, (cache, name, now), r),
    ensures
        final(cache)@ == old(cache)@.looked_up(name@, now),
        r matches Some(list) ==> old(cache)@.fresh(name@, now) == Some(list@),
        r is None ==> old(cache)@.fresh(name@, now) is None,
{
}

/// The cache takes answers as its model says.
pub proof fn law_answers_are_cached_as_modelled(
    cache: &mut DnsCache,
    name: &str,
    addresses: &[IpAddr],
    ttl: Option<Duration>,
    now: Instant,
)
    requires
        call_ensures(DnsCache::insert, (cache, name, addresses, ttl, now), ()),
    ensures
        old(cache)@.inserts(name@, addresses@, ttl, now, final(cache)@),
{
}

/// A name is resolved as the model of the engine says.
pub proof fn law_names_are_resolved_as_modelled(
    engine: &mut DnsEngine,
    name: &str,
    now: Instant,
    r: Result<Vec<IpAddr>, DnsError>,
)
    requires
        call_ensures(DnsEngine::resolve, (engine, name, now), r),
    ensures
        old(engine)@.resolves(name@, now, engine::outcome(r), final(engine)@),
{
}

/// A name is looked up without asking anybody as the model of the engine says.
pub proof fn law_names_are_looked_up_as_modelled(
    engine: &mut DnsEngine,
    name: &str,
    now: Instant,
    r: Lookup,
)
    requires
        call_ensures(DnsEngine::lookup, (engine, name, now), r),
    ensures
        r@ == old(engine)@.known(name@, now),
        final(engine)@ == old(engine)@.looked_up(name@, now),
{
}

/// The engine takes the reply of its resolvers as its model says.
pub proof fn law_replies_are_absorbed_as_modelled(
    engine: &mut DnsEngine,
    query: &DnsQuery,
    outcome: Consultation,
    now: Instant,
    r: Result<Vec<IpAddr>, DnsError>,
)
    requires
        call_ensures(DnsEngine::absorb, (engine, query, outcome, now), r),
    ensures
        old(engine)@.absorbs(
            query@,
            outcome.failures,
            engine::reply_of(outcome.result),
            now,
            final(engine)@,
        ),
        engine::outcome(r) == engine::addresses_of(engine::reply_of(outcome.result)),
{
}

/// The addresses that the system lists are answered as their model says.
pub proof fn law_system_answers_as_modelled(
    query: &DnsQuery,
    listed: &[IpAddr],
    r: Result<DnsAnswer, DnsError>,
)
    requires
        call_ensures(engine::system_answer, (query, listed), r),
    ensures
        engine::reply_of(r) == engine::system_reply(query@, listed@),
{
}

/// A matcher holds for a flow exactly when its model does: that of an address exactly when the
/// flow goes to that address.
pub proof fn law_matchers_match_as_modelled(matcher: &Matcher, flow: &FlowContext, r: bool)
    requires
        call_ensures(Matcher::matches, (matcher, flow), r),
    ensures
        r == matcher@.holds(flow@),
        matcher matches Matcher::Ip(a) ==> (r <==> flow.destination.host@ == HostView::Ip(*a)),
{
}

/// A policy decides as its model says.
pub proof fn law_policy_decides_as_modelled(
    policy: &PolicyEngine,
    flow: &FlowContext,
    r: PolicyDecision,
)
    requires
        call_ensures(PolicyEngine::decide, (policy, flow), r),
    ensures
        r@ == policy@.decides(flow@),
{
}

/// A flow is planned as the model of the runtime says.
pub proof fn law_flows_are_planned_as_modelled(
    runtime: &Runtime,
    flow: &FlowContext,
    r: ExecutionPlan,
)
    requires
        call_ensures(Runtime::plan, (runtime, flow), r),
    ensures
        r@ == runtime::plan_of(runtime@, flow@),
{
}

/// A domain ends in another one as their model says.
pub proof fn law_suffixes_are_matched_as_modelled(domain: &str, suffix: &str, r: bool)
    requires
        call_ensures(policy::domain_matches_suffix, (domain, suffix), r),
    ensures
        r == policy::has_suffix(domain@, suffix@),
{
}

/// A network holds an address as its model says, and is read as its model says.
pub proof fn law_networks_hold_as_modelled(network: IpCidr, address: IpAddr, r: bool)
    requires
        call_ensures(IpCidr::contains, (network, address), r),
    ensures
        r == network.has(address),
{
}

/// The text of a network is read as its model says.
pub proof fn law_networks_are_read_as_modelled(s: &[char], r: Result<IpCidr, CidrParseError>)
    requires
        call_ensures(IpCidr::parse, (s,), r),
    ensures
        r == cidr::cidr(s@),
{
}

/// A filter blocks a domain as its model says.
pub proof fn law_filters_block_as_modelled(filter: &DomainFilter, domain: &str, r: bool)
    requires
        call_ensures(DomainFilter::is_blocked, (filter, domain), r),
    ensures
        r == filter@.blocks(domain@),
{
}

/// A set of domains holds those that it was made of, and is refused only for a name that is
/// none.
pub proof fn law_sets_are_compiled_as_modelled(
    exact: Vec<String>,
    suffixes: Vec<String>,
    r: Result<DomainSet, DomainSetError>,
)
    requires
        call_ensures(DomainSet::compile, (exact, suffixes), r),
    ensures
        r matches Ok(set) ==> set@.exact == domain_set::all_normalized(
            domain_set::words(exact@),
        ).to_set() && set@.suffixes == domain_set::all_normalized(
            domain_set::words(suffixes@),
        ).to_set(),
        r is Ok ==> domain_set::all_valid(domain_set::words(exact@) + domain_set::words(suffixes@)),
        r is Err ==> !domain_set::all_valid(
            domain_set::words(exact@) + domain_set::words(suffixes@),
        ),
{
}

/// A stream goes where the plan for it says.
pub proof fn law_streams_are_dispatched_as_modelled(
    runtime: &Runtime,
    target: &Target,
    id: FlowId,
    refusal: Vec<u8>,
    r: StreamPlan,
)
    requires
        call_ensures(dispatch::plan_stream, (runtime, target, id, refusal), r),
    ensures
        r@ == dispatch::stream_plan(runtime@, target@, id, refusal@),
{
}

/// A datagram goes where the plan for it says.
pub proof fn law_datagrams_are_dispatched_as_modelled<D>(
    runtime: &Runtime,
    outbounds: &OutboundRegistry<D>,
    target: &Target,
    id: FlowId,
    r: Option<Endpoint>,
)
    requires
        call_ensures(dispatch::datagram_endpoint::<D>, (runtime, outbounds, target, id), r),
    ensures
        r matches Some(e) ==> dispatch::datagram_route(runtime@, outbounds@, target@, id) == Some(
            e@,
        ),
        r is None ==> dispatch::datagram_route(runtime@, outbounds@, target@, id) is None,
{
}

/// A handshake begins with what its protocol sends first: over Trojan with the whole request,
/// after which it is done.
pub proof fn law_handshakes_begin_as_modelled(
    protocol: &OutboundProtocol,
    target: &Target,
    r: (Handshake, HandshakeStep),
)
    requires
        call_ensures(Handshake::start, (protocol, target), r),
    ensures
        r.0@.protocol == protocol@,
        r.0@.target == target@,
        (r.0@.state, r.1@) == protocol::first_step(protocol@, target@),
        protocol@ matches ProtocolView::Trojan(hash) ==> match trojan::connect_request(
            hash,
            target@,
        ) {
            Ok(b) => r.1@ == (StepView::Exchange { send: b, read: 0 }),
            Err(_) => r.1@ is Fail,
        },
{
}

/// A handshake goes on as its model says, with the same protocol and target.
pub proof fn law_handshakes_step_as_modelled(
    handshake: &mut Handshake,
    input: &[u8],
    r: HandshakeStep,
)
    requires
        call_ensures(Handshake::step, (handshake, input), r),
    ensures
        (final(handshake)@.state, r@) == protocol::next_step(
            old(handshake)@.state,
            old(handshake)@.target,
            input@,
        ),
        final(handshake)@.target == old(handshake)@.target,
        final(handshake)@.protocol == old(handshake)@.protocol,
{
}

/// A SOCKS5 request is read as its model says.
pub proof fn law_socks_requests_step_as_modelled(
    inbound: &mut Socks5Inbound,
    input: &[u8],
    r: (Vec<u8>, InboundStep),
)
    requires
        call_ensures(Socks5Inbound::step, (inbound, input), r),
    ensures
        (final(inbound)@, r.0@, r.1@) == old(inbound)@.next(input@),
{
}

/// A SOCKS5 request is answered as its model says.
pub proof fn law_socks_answers_are_modelled(opened: &Result<Option<SocketAddr>, Error>, r: Vec<u8>)
    requires
        call_ensures(socks5::connect_reply, (opened,), r),
    ensures
        *opened matches Ok(local) ==> r@ == socks5::connect_answer(Ok(local)),
        *opened matches Err(e) ==> r@ == socks5::connect_answer(Err(e@.kind)),
{
}

/// A datagram of a SOCKS5 client is unwrapped as its model says.
pub proof fn law_wrapped_datagrams_are_read_as_modelled<'a>(
    packet: &'a [u8],
    r: Result<(Target, &'a [u8]), Error>,
)
    requires
        call_ensures(socks5::parse_udp_request, (packet,), r),
    ensures
        r matches Ok((t, payload)) ==> socks5::udp_request(packet@) == Ok::<
            (DestinationView, Seq<u8>),
            ErrorView,
        >((t@, payload@)),
        r matches Err(e) ==> socks5::udp_request(packet@) == Err::<
            (DestinationView, Seq<u8>),
            ErrorView,
        >(e@),
{
}

/// A datagram for a SOCKS5 client is wrapped as its model says.
pub proof fn law_datagrams_are_wrapped_as_modelled(
    source: &Target,
    payload: &[u8],
    r: Result<Vec<u8>, Error>,
)
    requires
        call_ensures(socks5::encode_udp_response, (source, payload), r),
    ensures
        trojan::written(r, socks5::udp_response(source@, payload@)),
{
}

/// A CONNECT request is read as its model says, and no byte of it is lost.
pub proof fn law_http_requests_are_fed_as_modelled(
    inbound: &mut HttpInbound,
    chunk: &[u8],
    r: HttpStep,
)
    requires
        call_ensures(HttpInbound::feed, (inbound, chunk), r),
    ensures
        final(inbound)@ == old(inbound)@ + chunk@,
        r@ == http_connect::fed(old(inbound)@, chunk@),
{
}

/// An authority is read as its model says.
pub proof fn law_authorities_are_read_as_modelled(value: &str, r: Result<Target, Error>)
    requires
        call_ensures(http_connect::parse_authority, (value,), r),
    ensures
        r matches Ok(t) ==> http_connect::authority(value@) == Ok::<DestinationView, ErrorView>(t@),
        r matches Err(e) ==> http_connect::authority(value@) == Err::<DestinationView, ErrorView>(
            e@,
        ),
{
}

/// A CONNECT request is opened or refused as the plan for its stream says.
pub proof fn law_http_requests_are_planned_as_modelled(
    runtime: &Runtime,
    target: &Target,
    id: FlowId,
    r: StreamPlan,
)
    requires
        call_ensures(http_connect::plan_connect, (runtime, target, id), r),
    ensures
        r@ == dispatch::stream_plan(runtime@, target@, id, http_connect::forbidden_bytes()),
{
}

/// A Trojan request is written as its model says.
pub proof fn law_trojan_requests_are_written_as_modelled(
    verifier: &TrojanVerifier,
    target: &Target,
    r: Result<Vec<u8>, Error>,
)
    requires
        call_ensures(trojan::encode_connect_request, (verifier, target), r),
    ensures
        trojan::written(r, trojan::connect_request(verifier@, target@)),
{
}

/// A Trojan datagram is framed as its model says.
pub proof fn law_trojan_frames_are_written_as_modelled(
    target: &Target,
    payload: &[u8],
    r: Result<Vec<u8>, Error>,
)
    requires
        call_ensures(trojan::encode_udp_frame, (target, payload), r),
    ensures
        trojan::written(r, trojan::udp_frame(target@, payload@)),
{
}

/// A Trojan frame is read as its model says.
pub proof fn law_trojan_frames_are_read_as_modelled(
    data: &[u8],
    r: Result<Option<ParsedUdpFrame>, Error>,
)
    requires
        call_ensures(trojan::parse_udp_frame, (data,), r),
    ensures
        r matches Ok(Some(f)) ==> trojan::frame_at(data@) == Ok::<Option<FrameView>, ErrorView>(
            Some(trojan::frame_view(f)),
        ) && f.consumed == f.payload.end,
        r matches Ok(None) ==> trojan::frame_at(data@) == Ok::<Option<FrameView>, ErrorView>(None),
        r matches Err(e) ==> trojan::frame_at(data@) == Err::<Option<FrameView>, ErrorView>(e@),
{
}

/// A datagram is queued for a Trojan session as the model of the session says.
pub proof fn law_trojan_datagrams_are_queued_as_modelled(
    session: &mut TrojanDatagramExecution,
    target: &Target,
    payload: &[u8],
    r: Result<(), Error>,
)
    requires
        call_ensures(TrojanDatagramExecution::queue_datagram, (session, target, payload), r),
    ensures
        r is Ok ==> old(session)@.queued(target@, payload@) == Ok::<SessionView, ErrorView>(
            final(session)@,
        ),
        r matches Err(e) ==> final(session)@ == old(session)@ && old(session)@.queued(
            target@,
            payload@,
        ) == Err::<SessionView, ErrorView>(e@),
{
}

/// A Trojan session writes as its model says.
pub proof fn law_trojan_sessions_write_as_modelled(
    session: &mut TrojanDatagramExecution,
    result: Result<usize, Error>,
    r: SessionStep,
)
    requires
        call_ensures(TrojanDatagramExecution::after_write, (session, result), r),
    ensures
        (final(session)@, r@) == old(session)@.after_write(datagram::attempt(result)),
{
}

/// A Trojan session reads as its model says.
pub proof fn law_trojan_sessions_read_as_modelled(
    session: &mut TrojanDatagramExecution,
    result: Result<usize, Error>,
    chunk: &[u8],
    r: SessionStep,
)
    requires
        call_ensures(TrojanDatagramExecution::after_read, (session, result, chunk), r),
    ensures
        (final(session)@, r@) == old(session)@.after_read(datagram::attempt(result), chunk@),
{
}

/// A Trojan session hands out its frames as its model says.
pub proof fn law_trojan_frames_are_served_as_modelled(
    session: &mut TrojanDatagramExecution,
    output: &mut [u8],
    remote_eof: bool,
    r: Result<Option<ReceivedDatagram>, Error>,
)
    requires
        call_ensures(TrojanDatagramExecution::receive_served, (session, output, remote_eof), r),
    ensures
        trojan_datagram::is_received(
            r,
            trojan_datagram::served(
                trojan_datagram::taken(old(session)@.rx, old(output)@.len()),
                remote_eof,
            ),
        ),
        (final(session)@.rx, final(output)@) == trojan_datagram::after_take(
            old(session)@.rx,
            old(output)@,
        ),
{
}

/// The end of one stream is passed on to the other: when the client has ended and all of it is
/// sent, the remote end is told, and when the remote end has ended and all of it is delivered,
/// the client is told.
pub proof fn law_directions_are_closed_as_modelled(relay: &mut TlsRelay, r: Closing)
    requires
        call_ensures(TlsRelay::close_directions, (relay,), r),
    ensures
        old(relay)@.client_eof && old(relay)@.upstream.len() == 0 ==> final(
            relay)@.close_notify_sent,
        old(relay)@.remote_eof && old(relay)@.downstream.len() == 0 ==> final(
            relay)@.client_write_shutdown,
        r.close_notify <==> final(relay)@.close_notify_sent && !old(relay)@.close_notify_sent,
        r.shutdown_client <==> final(relay)@.client_write_shutdown && !old(
            relay)@.client_write_shutdown,
        r == old(relay)@.closing(),
        final(relay)@ == old(relay)@.closed(),
{
}

/// A relay waits, stalls or ends as its model says.
pub proof fn law_relays_wait_as_modelled(relay: &mut TlsRelay, wants: TlsWants, r: RelayStep)
    requires
        call_ensures(TlsRelay::next, (relay, wants), r),
    ensures
        r@ == old(relay)@.step(wants),
        final(relay)@ == old(relay)@.waiting(wants),
{
}

/// What the client sent waits for the remote end as the model of the relay says.
pub proof fn law_clients_are_read_as_modelled(
    relay: &mut TlsRelay,
    result: IoResult,
    chunk: &[u8],
    r: IoStep,
)
    requires
        call_ensures(TlsRelay::after_client_read, (relay, result, chunk), r),
    ensures
        final(relay)@ == old(relay)@.with_client_read(result, chunk@),
        r == transport::read_step(result),
{
}

/// What the remote end sent waits for the client as the model of the relay says.
pub proof fn law_remote_ends_are_read_as_modelled(
    relay: &mut TlsRelay,
    result: IoResult,
    chunk: &[u8],
    r: IoStep,
)
    requires
        call_ensures(TlsRelay::after_plaintext_read, (relay, result, chunk), r),
    ensures
        final(relay)@ == old(relay)@.with_plaintext_read(result, chunk@),
        r == transport::read_step(result),
{
}

/// The relay hears of the client as its model says.
pub proof fn law_client_sockets_are_heard_as_modelled(relay: &mut TlsRelay, event: Readiness)
    requires
        call_ensures(TlsRelay::client_event, (relay, event), ()),
    ensures
        final(relay)@ == old(relay)@.with_client_event(event),
{
}

/// The relay hears of the remote end as its model says.
pub proof fn law_remote_sockets_are_heard_as_modelled(relay: &mut TlsRelay, event: Readiness)
    requires
        call_ensures(TlsRelay::remote_event, (relay, event), ()),
    ensures
        final(relay)@ == old(relay)@.with_remote_event(event),
{
}

/// What waits for the TLS session leaves as its model says.
pub proof fn law_buffers_are_fed_as_modelled(pending: &mut Pending, result: IoResult, r: IoStep)
    requires
        call_ensures(Pending::after_feed, (pending, result), r),
    ensures
        final(pending)@ == transport::left(old(pending)@, result),
        r == transport::feed_step(old(pending)@, result),
{
}

/// What waits for the client leaves as its model says.
pub proof fn law_buffers_are_delivered_as_modelled(
    pending: &mut Pending,
    result: IoResult,
    r: Result<IoStep, Error>,
)
    requires
        call_ensures(Pending::after_client_write, (pending, result), r),
    ensures
        final(pending)@ == transport::left(old(pending)@, result),
        r matches Ok(step) ==> transport::client_write_step(old(pending)@, result) == Ok::<
            IoStep,
            ErrorView,
        >(step),
        r matches Err(e) ==> transport::client_write_step(old(pending)@, result) == Err::<
            IoStep,
            ErrorView,
        >(e@),
{
}

/// Records are written until none is left.
pub proof fn law_records_are_written_as_modelled(result: IoResult, r: IoStep)
    requires
        call_ensures(transport::after_tls_write, (result,), r),
    ensures
        r == transport::tls_step(result),
{
}

/// Records are read until none is left, or the remote end has closed.
pub proof fn law_records_are_read_as_modelled(result: IoResult, eof: &mut bool, r: IoStep)
    requires
        call_ensures(transport::after_tls_read, (result, eof), r),
    ensures
        r == transport::tls_step(result),
        *final(eof) == transport::eof_after(*old(eof), result),
{
}

/// A target is reached for as the model of the attempts says.
pub proof fn law_attempts_go_on_as_modelled(
    attempts: &mut ConnectAttempts,
    now: Instant,
    r: ConnectStep,
)
    requires
        call_ensures(ConnectAttempts::step, (attempts, now), r),
    ensures
        (final(attempts)@, r@) == old(attempts)@.next(now),
{
}

/// A failed attempt is kept as the model of the attempts says.
pub proof fn law_failed_attempts_are_kept_as_modelled(attempts: &mut ConnectAttempts, error: Error)
    requires
        call_ensures(ConnectAttempts::failed, (attempts, error), ()),
    ensures
        final(attempts)@ == old(attempts)@.with_failure(error@),
{
}

/// A datagram is sent as the model of the send says.
pub proof fn law_datagrams_are_sent_as_modelled(
    send: &mut DatagramSend,
    association: &DirectDatagramAssociation,
    r: SendStep,
)
    requires
        call_ensures(DatagramSend::next, (send, association), r),
    ensures
        (final(send)@, r@) == old(send)@.next(association@),
{
}

/// An attempt to send ends as the model of the send says.
pub proof fn law_sends_end_as_modelled(
    send: &mut DatagramSend,
    association: &mut DirectDatagramAssociation,
    address: SocketAddr,
    length: usize,
    result: Result<usize, Error>,
    done: bool,
)
    requires
        call_ensures(DatagramSend::outcome, (send, association, address, length, result), done),
    ensures
        (final(send)@, final(association)@, done) == old(send)@.attempted(
            old(association)@,
            address,
            length as nat,
            datagram::attempt(result),
        ),
{
}

/// A datagram is received as the model of the turn says.
pub proof fn law_datagrams_are_received_as_modelled(
    turn: &mut ReceiveTurn,
    association: &DirectDatagramAssociation,
    event: ReceiveEvent,
    r: ReceiveStep,
)
    requires
        call_ensures(ReceiveTurn::step, (turn, association, event), r),
    ensures
        (*final(turn), r@) == old(turn).next(association@, event@),
{
}

/// Tokens are given out as their model says.
pub proof fn law_tokens_are_allocated_as_modelled(
    tokens: &mut DatagramTokenAllocator,
    count: usize,
    r: Result<usize, Error>,
)
    requires
        call_ensures(DatagramTokenAllocator::allocate, (tokens, count), r),
    ensures
        r matches Ok(first) ==> datagram::allocation(old(tokens)@, count) == Ok::<
            (usize, usize),
            ErrorView,
        >((first, final(tokens)@)),
        r matches Err(e) ==> final(tokens)@ == old(tokens)@ && datagram::allocation(
            old(tokens)@,
            count,
        ) == Err::<(usize, usize), ErrorView>(e@),
{
}

/// A SOCKS5 association goes on as the model of its relay says.
pub proof fn law_associations_step_as_modelled<E, D>(
    relay: &mut UdpRelay,
    event: RelayEvent,
    runtime: &Runtime,
    outbounds: &OutboundRegistry<D>,
    routes: &DatagramRouteSet<E>,
    id: FlowId,
    now: Instant,
    r: RelayAction,
)
    requires
        call_ensures(
            UdpRelay::step::<E, D>,
            (relay, event, runtime, outbounds, routes, id, now),
            r,
        ),
    ensures
        (final(relay)@, r@) == old(relay)@.next(
            event@,
            Surroundings {
                policy: runtime@,
                registry: outbounds@,
                routes: routes@,
                id,
                now,
            },
        ),
{
}

/// A transparent listener goes on as the model of its relay says.
pub proof fn law_listeners_step_as_modelled<E, S, D>(
    relay: &mut TransparentRelay<E, S>,
    event: ListenerEvent<S>,
    runtime: &Runtime,
    outbounds: &OutboundRegistry<D>,
    id: FlowId,
    now: Instant,
    r: ListenerAction,
)
    requires
        call_ensures(
            TransparentRelay::<E, S>::step::<D>,
            (relay, event, runtime, outbounds, id, now),
            r,
        ),
    ensures
        old(relay)@.steps(event@, runtime@, outbounds@, id, final(relay)@, r@, now),
{
}

/// A redirected stream is routed as its model says.
pub proof fn law_intercepted_streams_are_routed_as_modelled(
    runtime: &Runtime,
    original: SocketAddr,
    id: FlowId,
    r: Result<(Endpoint, Target), Error>,
)
    requires
        call_ensures(transparent::intercepted_stream, (runtime, original, id), r),
    ensures
        r matches Ok((e, t)) ==> transparent::stream_of(runtime@, original, id) == Ok::<
            (EndpointView, DestinationView),
            ErrorView,
        >((e@, t@)),
        r matches Err(e) ==> transparent::stream_of(runtime@, original, id) == Err::<
            (EndpointView, DestinationView),
            ErrorView,
        >(e@),
{
}

/// Connections are let in as the model of the limiter says.
pub proof fn law_permits_are_given_as_modelled(
    limiter: &mut ConnectionLimiter,
    r: Option<ConnectionPermit>,
)
    requires
        call_ensures(ConnectionLimiter::try_acquire, (limiter,), r),
    ensures
        (final(limiter)@, r is Some) == old(limiter)@.acquired(),
{
}

/// A permit comes back as the model of the limiter says.
pub proof fn law_permits_come_back_as_modelled(
    limiter: &mut ConnectionLimiter,
    permit: ConnectionPermit,
)
    requires
        call_ensures(ConnectionLimiter::release, (limiter, permit), ()),
    ensures
        final(limiter)@ == old(limiter)@.released(),
{
}

/// Failures to accept are counted as their model says.
pub proof fn law_accept_errors_count_as_modelled(
    errors: &mut AcceptErrors,
    error: &Error,
    r: AcceptStep,
)
    requires
        call_ensures(AcceptErrors::failed, (errors, error), r),
    ensures
        (final(errors)@, r@) == server::after_accept_error(old(errors)@, error@),
{
}

/// A connection that was accepted ends the row of failures.
pub proof fn law_accepting_clears_the_count(errors: &mut AcceptErrors)
    requires
        call_ensures(AcceptErrors::accepted, (errors,), ()),
    ensures
        final(errors)@ == 0,
{
}

/// The end of a listener is reported as its model says.
pub proof fn law_listener_exits_are_reported_as_modelled(exit: ListenerExit, r: Error)
    requires
        call_ensures(server::exit_error, (exit,), r),
    ensures
        r@ == server::exit_failure(exit),
{
}

/// A command line is read as its model says.
pub proof fn law_command_lines_are_read_as_modelled(
    args: &Vec<String>,
    r: Result<Command, UsageError>,
)
    requires
        call_ensures(cli::parse_command, (args,), r),
    ensures
        r matches Ok(c) ==> cli::command(cli::arguments(args@)) == Ok::<
            CommandView,
            UsageErrorView,
        >(c@),
        r matches Err(e) ==> cli::command(cli::arguments(args@)) == Err::<
            CommandView,
            UsageErrorView,
        >(e@),
{
}

/// A configuration is read as its model says.
pub proof fn law_configurations_are_read_as_modelled(
    source: &str,
    root: &str,
    assets: &Assets,
    r: Result<CompiledConfig, ConfigError>,
)
    requires
        call_ensures(config::parse_config_at, (source, root, assets), r),
    ensures
        r matches Ok(c) ==> config::config(source@, root@, assets@) == Ok::<
            ConfigView,
            ConfigErrorView,
        >(c@),
        r matches Err(e) ==> config::config(source@, root@, assets@) == Err::<
            ConfigView,
            ConfigErrorView,
        >(e@),
{
}

/// A configuration is replaced as the model of the store says.
pub proof fn law_configurations_are_reloaded_as_modelled(
    store: &mut ConfigStore,
    source: &str,
    assets: &Assets,
    r: Result<(), ConfigError>,
)
    requires
        call_ensures(ConfigStore::reload, (store, source, assets), r),
    ensures
        (r is Ok) == config::reloaded(
            old(store).spec_active()@,
            source@,
            old(store).spec_root(),
            assets@,
        ).1 is None,
        final(store).spec_active()@ == config::reloaded(
            old(store).spec_active()@,
            source@,
            old(store).spec_root(),
            assets@,
        ).0,
        r is Err ==> *final(store) == *old(store),
        final(store).spec_root() == old(store).spec_root(),
{
}

/// A platform is probed as its model says.
pub proof fn law_platforms_are_probed_as_modelled(
    platform: PlatformKind,
    evidence: &PlatformEvidence,
    r: PlatformCapabilities,
)
    requires
        call_ensures(PlatformCapabilities::probe, (platform, evidence), r),
    ensures
        r == platform::capabilities_of(platform, *evidence),
{
}

/// A configuration hands out the listeners that it holds.
pub proof fn law_configurations_hand_out_their_listeners<'a>(
    config: &'a CompiledConfig,
    r: &'a [ListenerConfig],
)
    requires
        call_ensures(CompiledConfig::listeners, (config,), r),
    ensures
        r@ == config@.listeners,
{
}

/// A configuration hands out the policy that it holds.
pub proof fn law_configurations_hand_out_their_policy<'a>(
    config: &'a CompiledConfig,
    r: &'a Runtime,
)
    requires
        call_ensures(CompiledConfig::runtime, (config,), r),
    ensures
        r@ == config@.policy,
{
}

/// A configuration hands out the endpoints that it holds, which trust the public roots.
pub proof fn law_configurations_hand_out_their_endpoints<'a>(
    config: &'a CompiledConfig,
    r: &'a OutboundRegistry<TrojanDatagramProvider>,
)
    requires
        call_ensures(CompiledConfig::outbounds, (config,), r),
    ensures
        config::registered_models(r@) == config@.endpoints,
        forall|i: int| 0 <= i < r@.len() ==> draft::trusts_public_roots(#[trigger] r@[i]),
{
}

/// A configuration hands out the resolvers that it holds, which trust the public roots.
pub proof fn law_configurations_hand_out_their_resolvers<'a>(
    config: &'a CompiledConfig,
    r: &'a [ResolverConfig],
)
    requires
        call_ensures(CompiledConfig::resolvers, (config,), r),
    ensures
        draft::resolver_views(r@) == config@.resolvers,
        forall|i: int|
            0 <= i < r@.len() ==> draft::resolver_trusts_public_roots(#[trigger] r@[i]),
{
}

/// A configuration tells of each resolver what it is, in their order.
pub proof fn law_configurations_tell_their_resolvers(
    config: &CompiledConfig,
    r: Vec<DnsResolverSummary>,
)
    requires
        call_ensures(CompiledConfig::resolver_summaries, (config,), r),
    ensures
        r@.len() == config@.resolvers.len(),
        forall|i: int|
            0 <= i < r@.len() ==> match config@.resolvers[i] {
                ResolverView::System => (#[trigger] r@[i]) is System,
                ResolverView::Dot(t) => r@[i] matches DnsResolverSummary::Dot {
                    address,
                    server_name,
                } && address == t.address && server_name@ == t.server_name,
            },
{
}

/// The engine of a configuration asks the resolvers that it is given, knows the hosts of the
/// configuration, and has cached nothing.
pub proof fn law_configurations_make_their_engine(
    config: &CompiledConfig,
    resolvers: Vec<Arc<dyn Resolver>>,
    r: DnsEngine,
)
    requires
        call_ensures(CompiledConfig::dns, (config, resolvers), r),
    ensures
        r@.hosts == config@.table,
        r@.resolvers == resolvers@,
        r@.cache.capacity == 4096,
        r@.cache.max_ttl.nanos == 60_000_000_000,
        forall|name: Seq<char>| !#[trigger] r@.cache.entries.contains_key(name),
{
}

/// A store hands out the configuration that is active.
pub proof fn law_stores_hand_out_what_is_active(store: &ConfigStore, r: Arc<CompiledConfig>)
    requires
        call_ensures(ConfigStore::snapshot, (store,), r),
    ensures
        r == store.spec_active(),
{
}

/// An answer is made of its addresses as its model says.
pub proof fn law_answers_are_made_as_modelled(
    addresses: Vec<IpAddr>,
    ttl: Option<Duration>,
    r: Result<DnsAnswer, DnsError>,
)
    requires
        call_ensures(DnsAnswer::new, (addresses, ttl), r),
    ensures
        dns::answers(r, dns::answer(addresses@, ttl)),
{
}

/// Endpoints are registered as they are, or refused as the model of the registry says.
pub proof fn law_registries_are_made_as_modelled<D>(
    endpoints: Vec<ProxyEndpointConfig<D>>,
    r: Result<OutboundRegistry<D>, Error>,
)
    requires
        call_ensures(OutboundRegistry::<D>::new, (endpoints,), r),
    ensures
        r matches Ok(registry) ==> registry@ == outbound::endpoint_views(endpoints@),
        r is Ok <==> outbound::registry_problem(outbound::endpoint_views(endpoints@)) is None,
        r matches Err(e) ==> outbound::registry_problem(outbound::endpoint_views(endpoints@)) == Some(
            e@,
        ),
{
}

/// What an endpoint can do is told as its model says.
pub proof fn law_capabilities_are_told_as_modelled<D>(
    registry: &OutboundRegistry<D>,
    endpoint: &Endpoint,
    r: Option<EndpointCapabilities>,
)
    requires
        call_ensures(OutboundRegistry::<D>::capabilities, (registry, endpoint), r),
    ensures
        outbound::is_capable(registry@, endpoint@, r),
{
}

/// An endpoint is registered when it is found by its name.
pub proof fn law_endpoints_are_found_as_modelled<D>(
    registry: &OutboundRegistry<D>,
    id: &EndpointId,
    r: bool,
)
    requires
        call_ensures(OutboundRegistry::<D>::contains, (registry, id), r),
    ensures
        r <==> outbound::lookup(registry@, id@) is Some,
{
}

/// A set of domains holds a domain as its model says.
pub proof fn law_sets_match_as_modelled(set: &DomainSet, domain: &str, r: bool)
    requires
        call_ensures(DomainSet::matches, (set, domain), r),
    ensures
        r == set@.has(domain@),
{
}

/// A filter blocks with one set and exempts with the other.
pub proof fn law_filters_are_made_of_their_sets(
    blocked: DomainSet,
    allowed: DomainSet,
    r: DomainFilter,
)
    requires
        call_ensures(DomainFilter::new, (blocked, allowed), r),
    ensures
        r@.blocked == blocked@,
        r@.allowed == allowed@,
{
}

/// A target is a host and a port as its model says.
pub proof fn law_targets_are_made_as_modelled(
    host: DestinationHost,
    port: u16,
    r: Result<Target, Error>,
)
    requires
        call_ensures(Target::new, (host, port), r),
    ensures
        r is Ok <==> port > 0,
        r matches Ok(t) ==> t@.host == host@ && t@.port == port,
        r matches Err(e) ==> proxy::target(host@, port) == Err::<DestinationView, ErrorView>(e@),
{
}

/// A flow towards a target is what its model says.
pub proof fn law_flows_are_made_as_modelled(
    target: &Target,
    transport: TransportProtocol,
    id: FlowId,
    r: FlowContext,
)
    requires
        call_ensures(Target::flow, (target, transport, id), r),
    ensures
        r@ == proxy::flow_to(target@, transport, id),
{
}

/// A target is resolved as its model says.
pub proof fn law_targets_are_resolved_as_modelled(
    target: &Target,
    dns: &mut DnsEngine,
    now: Instant,
    r: Result<Vec<SocketAddr>, Error>,
)
    requires
        call_ensures(proxy::resolve_target, (target, dns, now), r),
    ensures
        r matches Ok(list) ==> proxy::resolves_to(
            target@,
            old(dns)@,
            now,
            final(dns)@,
            Ok(list@),
        ),
        r matches Err(e) ==> proxy::resolves_to(
            target@,
            old(dns)@,
            now,
            final(dns)@,
            Err(e@),
        ),
{
}

/// Each flow has the number after the one before it, and the first follows the last.
pub proof fn law_flows_are_numbered_in_turn(ids: &mut FlowIds, r: FlowId)
    requires
        call_ensures(FlowIds::take, (ids,), r),
    ensures
        r.value() == old(ids)@,
        final(ids)@ != old(ids)@,
        old(ids)@ < u64::MAX ==> final(ids)@ == old(ids)@ + 1,
        old(ids)@ == u64::MAX ==> final(ids)@ == 0,
{
}

/// A password is known by its verifier as its model says.
pub proof fn law_passwords_are_verified_as_modelled(
    password: &str,
    r: Result<TrojanVerifier, Error>,
)
    requires
        call_ensures(TrojanVerifier::new, (password,), r),
    ensures
        r is Ok <==> trojan::is_password(password@),
        r matches Ok(v) ==> v@ == trojan::verifier_of(password@),
        r matches Err(e) ==> e@ == trojan::password_failure(),
{
}

/// An association speaks to a peer as its model says.
pub proof fn law_peers_are_admitted_as_modelled(
    association: &DirectDatagramAssociation,
    address: SocketAddr,
    r: Result<(), Error>,
)
    requires
        call_ensures(DirectDatagramAssociation::check_peer, (association, address), r),
    ensures
        r is Ok <==> datagram::admits(association@, address),
        r matches Err(e) ==> e@ == datagram::peer_limit_failure(),
{
}

/// A framed session is registered as its model says.
pub proof fn law_sessions_are_registered_as_modelled(
    session: &mut FramedReadiness,
    wants: TlsWants,
    r: Result<RegistrationChange, Error>,
)
    requires
        call_ensures(FramedReadiness::register, (session, wants), r),
    ensures
        r matches Ok(change) ==> old(session).registered(wants) == Ok::<
            (FramedReadiness, RegistrationChange),
            ErrorView,
        >((*final(session), change)),
        r matches Err(e) ==> *final(session) == *old(session) && old(session).registered(wants)
            == Err::<(FramedReadiness, RegistrationChange), ErrorView>(e@),
{
}

/// A framed session is told to the registry as its model says.
pub proof fn law_sessions_are_refreshed_as_modelled(
    session: &mut FramedReadiness,
    wants: TlsWants,
    r: RegistrationChange,
)
    requires
        call_ensures(FramedReadiness::refresh, (session, wants), r),
    ensures
        (*final(session), r) == old(session).refreshed(wants),
{
}

/// A block list is compiled as its model says.
pub proof fn law_blocklists_are_compiled_as_modelled(
    source: &str,
    r: Result<CompiledBlocklist, BlocklistError>,
)
    requires
        call_ensures(blocklist::compile_blocklist, (source,), r),
    ensures
        r matches Ok(c) ==> (blocklist::blocklist(source@) matches Ok(list) && c.spec_filter()
            == list.filter()),
        r matches Err(e) ==> (blocklist::blocklist(source@) matches Err(v) && e@ == v),
{
}

} // verus!
