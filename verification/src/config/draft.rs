//! A configuration in the making: what each directive adds to it.

use crate::blocklist;
use crate::blocklist::{BlocklistStats, ListView, MAX_BLOCKLIST_BYTES};
use crate::cidr;
use crate::cidr::IpCidr;
use crate::config::asset;
use crate::config::asset::{AssetMap, Assets, MAX_BLOCKLISTS, MAX_HOSTS_FILES};
use crate::dns::dot;
use crate::dns::dot::DotResolver;
use crate::dns::hosts;
use crate::dns::hosts::{HostsMap, HostsTable, MAX_HOSTS_BYTES};
use crate::flow::TransportProtocol;
use crate::net;
use crate::net::SocketAddr;
use crate::outbound::{ProxyEndpointConfig, ProxyEndpointView, TransportConfig, TransportView};
use crate::plan;
use crate::plan::{Endpoint, EndpointId, EndpointView, RejectReason};
use crate::policy;
use crate::policy::{
    ActionView, Matcher, MatcherView, PolicyAction, PolicyRule, PolicyTier, RuleId, RuleView,
};
use crate::protocol;
use crate::protocol::{OutboundProtocol, ProtocolView};
use crate::text;
use crate::text::Class;
use crate::time::Duration;
use crate::transport;
use crate::transport::{TcpTransport, TcpTransportView, TlsTransport, TlsTransportView};
use crate::trojan;
use crate::trojan::TrojanVerifier;
use crate::trojan_datagram::{ProviderView, TrojanDatagramProvider};
use vstd::prelude::*;
use vstd::string::*;

verus! {

pub const MAX_RULES: usize = 4096;

pub const MAX_LISTENERS: usize = 16;

pub const MAX_PROXY_ENDPOINTS: usize = 64;

pub const MAX_RESOLVERS: usize = 8;

#[derive(Clone, Copy, Debug, PartialEq, Eq, Structural)]
pub enum ListenerProtocol {
    Socks5,
    HttpConnect,
}

#[derive(Clone, Copy, Debug, PartialEq, Eq, Structural)]
pub struct ListenerConfig {
    pub protocol: ListenerProtocol,
    pub address: SocketAddr,
}

#[derive(Debug, PartialEq, Eq)]
pub struct BlocklistSummary {
    pub path: String,
    pub stats: BlocklistStats,
}

#[verifier::ext_equal]
pub struct BlocklistSummaryView {
    pub path: Seq<char>,
    pub source_lines: nat,
    pub accepted_block: nat,
    pub accepted_allow: nat,
    pub ignored: nat,
}

impl View for BlocklistSummary {
    type V = BlocklistSummaryView;

    open spec fn view(&self) -> BlocklistSummaryView {
        BlocklistSummaryView {
            path: self.path@,
            source_lines: self.stats.source_lines as nat,
            accepted_block: self.stats.accepted_block as nat,
            accepted_allow: self.stats.accepted_allow as nat,
            ignored: self.stats.ignored as nat,
        }
    }
}

#[derive(Debug, PartialEq, Eq)]
pub struct HostsSummary {
    pub path: String,
    pub records: usize,
}

#[verifier::ext_equal]
pub struct HostsSummaryView {
    pub path: Seq<char>,
    pub records: nat,
}

impl View for HostsSummary {
    type V = HostsSummaryView;

    open spec fn view(&self) -> HostsSummaryView {
        HostsSummaryView { path: self.path@, records: self.records as nat }
    }
}

/// A resolver of the chain.
pub enum ResolverConfig {
    System,
    Dot(TlsTransport),
}

#[verifier::ext_equal]
pub enum ResolverView {
    System,
    Dot(TlsTransportView),
}

impl View for ResolverConfig {
    type V = ResolverView;

    open spec fn view(&self) -> ResolverView {
        match self {
            ResolverConfig::System => ResolverView::System,
            ResolverConfig::Dot(t) => ResolverView::Dot(t@),
        }
    }
}

/// A named proxy endpoint.
#[verifier::ext_equal]
pub struct EndpointModel {
    pub id: Seq<char>,
    pub protocol: ProtocolView,
    pub datagram: Option<ProviderView>,
    pub transport: TransportView,
}

pub open spec fn endpoint_model(e: ProxyEndpointConfig<TrojanDatagramProvider>) -> EndpointModel {
    EndpointModel {
        id: e.id@,
        protocol: e.protocol@,
        datagram: match e.datagram {
            Some(d) => Some(d@),
            None => None,
        },
        transport: e.transport@,
    }
}

/// Wherever the endpoint speaks TLS, for streams or for datagrams, it does so with
/// the settings for the public roots.
pub open spec fn trusts_public_roots(e: ProxyEndpointView<TrojanDatagramProvider>) -> bool {
    &&& e.settings matches Some(c) ==> transport::are_webpki(c)
    &&& e.datagram matches Some(d) ==> transport::are_webpki(d.spec_config())
}

/// Where the resolver speaks TLS, it does so with the settings for the public roots.
pub open spec fn resolver_trusts_public_roots(r: ResolverConfig) -> bool {
    r matches ResolverConfig::Dot(t) ==> transport::are_webpki(t.spec_config())
}

/// What the directives so far have given.
#[verifier::ext_equal]
pub struct DraftView {
    pub version: bool,
    pub default_action: Option<ActionView>,
    pub allow_public: Option<bool>,
    pub listeners: Seq<ListenerConfig>,
    pub blocklists: Seq<BlocklistSummaryView>,
    pub hosts: Seq<HostsSummaryView>,
    pub table: HostsMap,
    pub endpoints: Seq<EndpointModel>,
    /// The endpoints that actions name, in order.
    pub references: Seq<Seq<char>>,
    pub rules: Seq<RuleView>,
    pub resolvers: Seq<ResolverView>,
}

pub open spec fn empty_draft() -> DraftView {
    DraftView {
        version: false,
        default_action: None,
        allow_public: None,
        listeners: Seq::empty(),
        blocklists: Seq::empty(),
        hosts: Seq::empty(),
        table: Map::empty(),
        endpoints: Seq::empty(),
        references: Seq::empty(),
        rules: Seq::empty(),
        resolvers: Seq::empty(),
    }
}

pub type Fields = Seq<Seq<char>>;

/// The configuration with a directive, or what is wrong with the directive.
pub type Outcome = Result<DraftView, Seq<char>>;

#[verifier::opaque]
pub open spec fn version_line(st: DraftView, f: Fields) -> Outcome {
    if f.len() != 2 {
        Err("version syntax is `version 1`"@)
    } else if f[1] != "1"@ {
        Err("expected exactly `version 1`"@)
    } else if st.version {
        Err("duplicate version directive"@)
    } else {
        Ok(DraftView { version: true, ..st })
    }
}

#[verifier::opaque]
pub open spec fn public_line(st: DraftView, f: Fields) -> Outcome {
    if f.len() != 2 {
        Err("allow-public-listen syntax is `allow-public-listen <true|false>`"@)
    } else if st.allow_public is Some {
        Err("duplicate allow-public-listen directive"@)
    } else if f[1] == "true"@ {
        Ok(DraftView { allow_public: Some(true), ..st })
    } else if f[1] == "false"@ {
        Ok(DraftView { allow_public: Some(false), ..st })
    } else {
        Err("allow-public-listen must be `true` or `false`"@)
    }
}

pub open spec fn has_listener(listeners: Seq<ListenerConfig>, address: SocketAddr) -> bool {
    exists|i: int| 0 <= i < listeners.len() && (#[trigger] listeners[i]).address == address
}

#[verifier::opaque]
pub open spec fn listen_line(st: DraftView, f: Fields) -> Outcome {
    if f.len() != 3 {
        Err("listen syntax is `listen <socks5|http> <ip:port>`"@)
    } else if st.listeners.len() >= MAX_LISTENERS {
        Err("listener count exceeds 16"@)
    } else if f[1] != "socks5"@ && f[1] != "http"@ {
        Err("listener protocol must be `socks5` or `http`"@)
    } else {
        let protocol = if f[1] == "socks5"@ {
            ListenerProtocol::Socks5
        } else {
            ListenerProtocol::HttpConnect
        };
        match net::socket(f[2]) {
            None => Err("invalid listener address"@),
            Some(address) => if address.port == 0 {
                Err("listener port must not be zero"@)
            } else if has_listener(st.listeners, address) {
                Err("two listeners cannot bind the same socket address"@)
            } else {
                Ok(
                    DraftView {
                        listeners: st.listeners.push(ListenerConfig { protocol, address }),
                        ..st
                    },
                )
            },
        }
    }
}

/// The address of a proxy.
pub open spec fn proxy_address(s: Seq<char>) -> Result<SocketAddr, Seq<char>> {
    match net::socket(s) {
        None => Err("proxy endpoint address must be an IP socket address"@),
        Some(address) => if address.port == 0 {
            Err("proxy endpoint port must not be zero"@)
        } else {
            Ok(address)
        },
    }
}

pub open spec fn tcp_of(address: Seq<char>) -> Result<TransportView, Seq<char>> {
    match proxy_address(address) {
        Err(e) => Err(e),
        Ok(a) => Ok(
            TransportView::Tcp(
                TcpTransportView {
                    address: a,
                    connect_timeout: Duration::spec_from_secs(10),
                    handshake_timeout: Duration::spec_from_secs(10),
                },
            ),
        ),
    }
}

pub open spec fn tls_of(address: Seq<char>, name: Seq<char>) -> Result<TlsTransportView, Seq<char>> {
    match proxy_address(address) {
        Err(e) => Err(e),
        Ok(a) => match transport::tls_transport(
            a,
            name,
            Duration::spec_from_secs(10),
            Duration::spec_from_secs(10),
        ) {
            Err(e) => Err(e.message),
            Ok(t) => Ok(t),
        },
    }
}

pub open spec fn stream_protocol(s: Seq<char>) -> Option<ProtocolView> {
    if s == "socks5"@ {
        Some(ProtocolView::Socks5)
    } else if s == "http"@ {
        Some(ProtocolView::HttpConnect)
    } else {
        None
    }
}

/// The endpoint that a directive with a usable name describes.
pub open spec fn endpoint_of(f: Fields) -> Result<EndpointModel, Seq<char>> {
    let id = f[1];
    if f.len() >= 4 && stream_protocol(f[2]) is Some && (f.len() == 4 || (f.len() == 5 && f[3]
        == "tcp"@) || (f.len() == 6 && f[3] == "tls"@)) {
        let protocol = stream_protocol(f[2])->Some_0;
        let transport = if f.len() == 6 {
            match tls_of(f[4], f[5]) {
                Err(e) => Err(e),
                Ok(t) => Ok(TransportView::Tls(t)),
            }
        } else {
            tcp_of(f[f.len() - 1])
        };
        match transport {
            Err(e) => Err(e),
            Ok(t) => Ok(EndpointModel { id, protocol, datagram: None, transport: t }),
        }
    } else if f.len() == 7 && f[2] == "trojan"@ && f[3] == "tls"@ {
        if !trojan::is_password(f[6]) {
            Err(trojan::password_failure().message)
        } else {
            let credential = trojan::verifier_of(f[6]);
            match tls_of(f[4], f[5]) {
                Err(e) => Err(e),
                Ok(t) => Ok(
                    EndpointModel {
                        id,
                        protocol: ProtocolView::Trojan(credential),
                        datagram: Some(ProviderView { credential, transport: t }),
                        transport: TransportView::Tls(t),
                    },
                ),
            }
        }
    } else if f.len() >= 3 && f[2] == "trojan"@ {
        Err(
            "Trojan endpoint syntax is `endpoint <id> trojan tls <ip:port> <server-name> <password>`; plain TCP is forbidden"@,
        )
    } else {
        Err(
            "endpoint syntax supports SOCKS5/HTTP over implicit TCP, explicit TCP or TLS, and Trojan over TLS only"@,
        )
    }
}

pub open spec fn has_endpoint(endpoints: Seq<EndpointModel>, id: Seq<char>) -> bool {
    exists|i: int| 0 <= i < endpoints.len() && (#[trigger] endpoints[i]).id == id
}

pub open spec fn bad_id() -> Seq<char> {
    "endpoint id must be 1..=64 ASCII alphanumeric/._- characters"@
}

#[verifier::opaque]
pub open spec fn endpoint_line(st: DraftView, f: Fields) -> Outcome {
    if st.endpoints.len() >= MAX_PROXY_ENDPOINTS {
        Err("proxy endpoint count exceeds 64"@)
    } else if f.len() < 2 {
        Err("endpoint requires an id, protocol and transport configuration"@)
    } else if !plan::is_endpoint_id(f[1]) {
        Err(bad_id())
    } else if has_endpoint(st.endpoints, f[1]) {
        Err("duplicate proxy endpoint id"@)
    } else {
        match endpoint_of(f) {
            Err(e) => Err(e),
            Ok(e) => Ok(DraftView { endpoints: st.endpoints.push(e), ..st }),
        }
    }
}

/// What an action does, and the endpoint that it names.
pub open spec fn action_of(s: Seq<char>) -> Result<(ActionView, Option<Seq<char>>), Seq<char>> {
    let proxy = "proxy:"@;
    if s == "direct"@ {
        Ok((ActionView::Route(EndpointView::Direct), None))
    } else if s == "reject"@ {
        Ok((ActionView::Reject(RejectReason::Policy), None))
    } else if !text::starts_with(s, proxy) {
        Err("action must be `direct`, `reject`, or `proxy:<id>`"@)
    } else {
        let id = s.skip(proxy.len() as int);
        if plan::is_endpoint_id(id) {
            Ok((ActionView::Route(EndpointView::Proxy(id)), Some(id)))
        } else {
            Err(bad_id())
        }
    }
}

pub open spec fn with_reference(references: Seq<Seq<char>>, id: Option<Seq<char>>) -> Seq<
    Seq<char>,
> {
    match id {
        Some(id) => references.push(id),
        None => references,
    }
}

#[verifier::opaque]
pub open spec fn default_line(st: DraftView, f: Fields) -> Outcome {
    if f.len() != 2 {
        Err("default syntax is `default <direct|reject|proxy:id>`"@)
    } else if st.default_action is Some {
        Err("duplicate default directive"@)
    } else {
        match action_of(f[1]) {
            Err(e) => Err(e),
            Ok((action, id)) => Ok(
                DraftView {
                    default_action: Some(action),
                    references: with_reference(st.references, id),
                    ..st
                },
            ),
        }
    }
}

/// The identifier of the next rule: rules are numbered from one.
pub open spec fn next_rule_id(st: DraftView) -> RuleId {
    RuleId::spec_new((st.rules.len() + 1) as u64)
}

pub open spec fn with_rule(st: DraftView, matcher: MatcherView, action: ActionView) -> Seq<
    RuleView,
> {
    st.rules.push(
        RuleView { id: next_rule_id(st), tier: PolicyTier::UserHard, matcher, action },
    )
}

pub open spec fn blocklist_summary(path: Seq<char>, source: Seq<char>, list: ListView)
    -> BlocklistSummaryView {
    BlocklistSummaryView {
        path,
        source_lines: text::lines(source).len(),
        accepted_block: list.blocked_exact.len() + list.blocked_suffix.len(),
        accepted_allow: list.allowed_suffix.len(),
        ignored: list.ignored,
    }
}

pub open spec fn has_blocklist(list: Seq<BlocklistSummaryView>, path: Seq<char>) -> bool {
    exists|i: int| 0 <= i < list.len() && asset::same_path((#[trigger] list[i]).path, path)
}

#[verifier::opaque]
pub open spec fn blocklist_line(
    st: DraftView,
    f: Fields,
    root: Seq<char>,
    assets: AssetMap,
) -> Outcome {
    if f.len() != 2 {
        Err("blocklist syntax is `blocklist <path>`; paths with whitespace are not supported yet"@)
    } else if st.blocklists.len() >= MAX_BLOCKLISTS {
        Err("blocklist count exceeds 8"@)
    } else if st.rules.len() >= MAX_RULES {
        Err("rule count exceeds 4096"@)
    } else {
        let path = asset::asset_path(root, f[1]);
        if has_blocklist(st.blocklists, path) {
            Err("duplicate blocklist path"@)
        } else {
            match asset::loaded(assets, path, MAX_BLOCKLIST_BYTES as nat, "blocklist"@) {
                Err(e) => Err(e),
                Ok(source) => match blocklist::blocklist(source) {
                    Err(e) => Err("cannot compile blocklist "@ + path + ": "@ + e.text()),
                    Ok(list) => Ok(
                        DraftView {
                            rules: with_rule(
                                st,
                                MatcherView::DomainFilter(list.filter()),
                                ActionView::Reject(RejectReason::Policy),
                            ),
                            blocklists: st.blocklists.push(blocklist_summary(path, source, list)),
                            ..st
                        },
                    ),
                },
            }
        }
    }
}

pub open spec fn has_hosts(list: Seq<HostsSummaryView>, path: Seq<char>) -> bool {
    exists|i: int| 0 <= i < list.len() && asset::same_path((#[trigger] list[i]).path, path)
}

#[verifier::opaque]
pub open spec fn hosts_line(
    st: DraftView,
    f: Fields,
    root: Seq<char>,
    assets: AssetMap,
) -> Outcome {
    if f.len() != 2 {
        Err("hosts syntax is `hosts <path>`; paths with whitespace are not supported yet"@)
    } else if st.hosts.len() >= MAX_HOSTS_FILES {
        Err("hosts file count exceeds 4"@)
    } else {
        let path = asset::asset_path(root, f[1]);
        if has_hosts(st.hosts, path) {
            Err("duplicate hosts path"@)
        } else {
            match asset::loaded(assets, path, MAX_HOSTS_BYTES as nat, "hosts"@) {
                Err(e) => Err(e),
                Ok(source) => match hosts::hosts(source) {
                    Err(e) => Err("cannot compile hosts "@ + path + ": "@ + e.message),
                    Ok(v) => Ok(
                        DraftView {
                            table: hosts::merged(st.table, v.table),
                            hosts: st.hosts.push(
                                HostsSummaryView { path, records: v.table.len() },
                            ),
                            ..st
                        },
                    ),
                },
            }
        }
    }
}

/// The domain of a matcher, in lower case and without dots around it.
pub open spec fn matcher_domain(s: Seq<char>) -> Result<Seq<char>, Seq<char>> {
    let n = text::lower(text::trim(s, Class::Is('.')));
    if n.len() == 0 || text::byte_len(n) > 253 {
        Err("invalid domain matcher"@)
    } else {
        Ok(n)
    }
}

pub open spec fn matcher_of(f: Fields) -> Result<MatcherView, Seq<char>> {
    let kind = f[2];
    if kind == "any"@ && f.len() == 3 {
        Ok(MatcherView::Any)
    } else if kind == "domain-exact"@ && f.len() == 4 {
        match matcher_domain(f[3]) {
            Err(e) => Err(e),
            Ok(d) => Ok(MatcherView::DomainExact(d)),
        }
    } else if kind == "domain-suffix"@ && f.len() == 4 {
        match matcher_domain(f[3]) {
            Err(e) => Err(e),
            Ok(d) => Ok(MatcherView::DomainSuffix(d)),
        }
    } else if kind == "ip"@ && f.len() == 4 {
        match net::ip(f[3]) {
            None => Err("invalid IP address"@),
            Some(a) => Ok(MatcherView::Ip(a)),
        }
    } else if kind == "cidr"@ && f.len() == 4 {
        match cidr::cidr(f[3]) {
            Err(e) => Err(e.spec_text()),
            Ok(c) => Ok(MatcherView::Cidr(c)),
        }
    } else if kind == "port"@ && f.len() == 4 {
        match text::number(f[3], 65535) {
            None => Err("invalid destination port"@),
            Some(p) => if p == 0 {
                Err("destination port must not be zero"@)
            } else {
                Ok(MatcherView::Port(p as u16))
            },
        }
    } else if kind == "transport"@ && f.len() == 4 {
        if f[3] == "tcp"@ {
            Ok(MatcherView::Transport(TransportProtocol::Tcp))
        } else if f[3] == "udp"@ {
            Ok(MatcherView::Transport(TransportProtocol::Udp))
        } else {
            Err("transport matcher must be `tcp` or `udp`"@)
        }
    } else {
        Err("supported matchers: any, domain-exact, domain-suffix, ip, cidr, port, transport"@)
    }
}

#[verifier::opaque]
pub open spec fn rule_line(st: DraftView, f: Fields) -> Outcome {
    if st.rules.len() >= MAX_RULES {
        Err("rule count exceeds 4096"@)
    } else if f.len() < 3 {
        Err("rule syntax is `rule <direct|reject|proxy:id> <matcher> [value]`"@)
    } else {
        match action_of(f[1]) {
            Err(e) => Err(e),
            Ok((action, id)) => match matcher_of(f) {
                Err(e) => Err(e),
                Ok(matcher) => Ok(
                    DraftView {
                        rules: with_rule(st, matcher, action),
                        references: with_reference(st.references, id),
                        ..st
                    },
                ),
            },
        }
    }
}

/// Two declarations of one resolver: the system, or an address with a TLS
/// identity, whatever its case.
pub open spec fn same_resolver(a: ResolverView, b: ResolverView) -> bool {
    match (a, b) {
        (ResolverView::System, ResolverView::System) => true,
        (ResolverView::Dot(x), ResolverView::Dot(y)) => x.address == y.address && text::same_text(
            x.server_name,
            y.server_name,
        ),
        _ => false,
    }
}

pub open spec fn has_resolver(list: Seq<ResolverView>, r: ResolverView) -> bool {
    exists|i: int| 0 <= i < list.len() && same_resolver(#[trigger] list[i], r)
}

pub open spec fn resolver_of(f: Fields) -> Result<ResolverView, Seq<char>> {
    if f.len() == 2 && f[1] == "system"@ {
        Ok(ResolverView::System)
    } else if f.len() == 4 && f[1] == "dot"@ {
        match net::socket(f[2]) {
            None => Err("DoT resolver address must be an IP socket address"@),
            Some(address) => if address.port == 0 {
                Err("DoT resolver port must not be zero"@)
            } else {
                match transport::tls_transport(
                    address,
                    f[3],
                    Duration::spec_from_secs(10),
                    Duration::spec_from_secs(10),
                ) {
                    Err(e) => Err(dot::dot_transport_failure(e.message).message),
                    Ok(t) => Ok(ResolverView::Dot(t)),
                }
            },
        }
    } else {
        Err("resolver syntax is `resolver system` or `resolver dot <ip:port> <server-name>`"@)
    }
}

#[verifier::opaque]
pub open spec fn resolver_line(st: DraftView, f: Fields) -> Outcome {
    if st.resolvers.len() >= MAX_RESOLVERS {
        Err("resolver count exceeds 8"@)
    } else {
        match resolver_of(f) {
            Err(e) => Err(e),
            Ok(r) => if has_resolver(st.resolvers, r) {
                Err("duplicate resolver"@)
            } else {
                Ok(DraftView { resolvers: st.resolvers.push(r), ..st })
            },
        }
    }
}

/// The configuration with one directive.
#[verifier::opaque]
pub open spec fn with_fields(
    st: DraftView,
    f: Fields,
    root: Seq<char>,
    assets: AssetMap,
) -> Outcome {
    if f[0] == "version"@ {
        version_line(st, f)
    } else if f[0] == "allow-public-listen"@ {
        public_line(st, f)
    } else if f[0] == "listen"@ {
        listen_line(st, f)
    } else if f[0] == "endpoint"@ {
        endpoint_line(st, f)
    } else if f[0] == "default"@ {
        default_line(st, f)
    } else if f[0] == "blocklist"@ {
        blocklist_line(st, f, root, assets)
    } else if f[0] == "hosts"@ {
        hosts_line(st, f, root, assets)
    } else if f[0] == "rule"@ {
        rule_line(st, f)
    } else if f[0] == "resolver"@ {
        resolver_line(st, f)
    } else {
        Err("unknown directive `"@ + f[0] + "`"@)
    }
}

/// The fields of a line: what stands in front of a number sign, at white space.
pub open spec fn line_fields(raw: Seq<char>) -> Fields {
    text::fields(text::trim(text::before(raw, '#'), Class::Space))
}

/// The configuration with one line.
pub open spec fn with_line(
    st: DraftView,
    raw: Seq<char>,
    root: Seq<char>,
    assets: AssetMap,
) -> Outcome {
    let f = line_fields(raw);
    if f.len() == 0 {
        Ok(st)
    } else {
        with_fields(st, f, root, assets)
    }
}

/// A returned success or message is the one that the model gives.
pub open spec fn says(o: Outcome, after: DraftView, r: Result<(), String>) -> bool {
    match (o, r) {
        (Ok(v), Ok(_)) => v == after,
        (Err(m), Err(e)) => e@ == m,
        _ => false,
    }
}

/// The configuration that the directives so far have given.
pub struct Draft {
    pub(crate) version: bool,
    pub(crate) default_action: Option<PolicyAction>,
    pub(crate) allow_public: Option<bool>,
    pub(crate) listeners: Vec<ListenerConfig>,
    pub(crate) blocklists: Vec<BlocklistSummary>,
    pub(crate) hosts: Vec<HostsSummary>,
    pub(crate) table: HostsTable,
    pub(crate) endpoints: Vec<ProxyEndpointConfig<TrojanDatagramProvider>>,
    pub(crate) references: Vec<EndpointId>,
    pub(crate) rules: Vec<PolicyRule>,
    pub(crate) resolvers: Vec<ResolverConfig>,
}

pub open spec fn endpoint_models(
    v: Seq<ProxyEndpointConfig<TrojanDatagramProvider>>,
) -> Seq<EndpointModel> {
    Seq::new(v.len(), |i: int| endpoint_model(v[i]))
}

pub open spec fn blocklist_views(v: Seq<BlocklistSummary>) -> Seq<BlocklistSummaryView> {
    Seq::new(v.len(), |i: int| v[i]@)
}

pub open spec fn hosts_views(v: Seq<HostsSummary>) -> Seq<HostsSummaryView> {
    Seq::new(v.len(), |i: int| v[i]@)
}

pub open spec fn resolver_views(v: Seq<ResolverConfig>) -> Seq<ResolverView> {
    Seq::new(v.len(), |i: int| v[i]@)
}

pub open spec fn id_views(v: Seq<EndpointId>) -> Seq<Seq<char>> {
    Seq::new(v.len(), |i: int| v[i]@)
}

impl View for Draft {
    type V = DraftView;

    closed spec fn view(&self) -> DraftView {
        DraftView {
            version: self.version,
            default_action: match self.default_action {
                Some(a) => Some(a@),
                None => None,
            },
            allow_public: self.allow_public,
            listeners: self.listeners@,
            blocklists: blocklist_views(self.blocklists@),
            hosts: hosts_views(self.hosts@),
            table: self.table@,
            endpoints: endpoint_models(self.endpoints@),
            references: id_views(self.references@),
            rules: policy::rule_views(self.rules@),
            resolvers: resolver_views(self.resolvers@),
        }
    }
}

fn refused(message: &str) -> (r: Result<(), String>)
    ensures
        r matches Err(e) && e@ == message@,
{
    Err(message.to_owned())
}

fn parse_proxy_address(value: &[char]) -> (r: Result<SocketAddr, String>)
    ensures
        match r {
            Ok(a) => proxy_address(value@) == Ok::<SocketAddr, Seq<char>>(a),
            Err(e) => proxy_address(value@) == Err::<SocketAddr, Seq<char>>(e@),
        },
{
    match net::socket_of(value) {
        None => Err("proxy endpoint address must be an IP socket address".to_owned()),
        Some(address) => if address.port == 0 {
            Err("proxy endpoint port must not be zero".to_owned())
        } else {
            Ok(address)
        },
    }
}

fn parse_tcp_transport(value: &[char]) -> (r: Result<TransportConfig, String>)
    ensures
        match r {
            Ok(t) => tcp_of(value@) == Ok::<TransportView, Seq<char>>(t@) && t is Tcp,
            Err(e) => tcp_of(value@) == Err::<TransportView, Seq<char>>(e@),
        },
{
    match parse_proxy_address(value) {
        Ok(address) => Ok(TransportConfig::Tcp(TcpTransport::new(address))),
        Err(e) => Err(e),
    }
}

fn parse_tls_transport_raw(value: &[char], server_name: &[char]) -> (r: Result<
    TlsTransport,
    String,
>)
    ensures
        match r {
            Ok(t) => tls_of(value@, server_name@) == Ok::<TlsTransportView, Seq<char>>(t@)
                && transport::are_webpki(t.spec_config()),
            Err(e) => tls_of(value@, server_name@) == Err::<TlsTransportView, Seq<char>>(e@),
        },
{
    match parse_proxy_address(value) {
        Ok(address) => {
            let name = text::to_text(server_name);
            match TlsTransport::webpki(address, name.as_str()) {
                Ok(t) => Ok(t),
                Err(e) => Err(e.text().to_owned()),
            }
        },
        Err(e) => Err(e),
    }
}

fn parse_stream_protocol(value: &[char]) -> (r: Option<OutboundProtocol>)
    ensures
        match r {
            Some(p) => stream_protocol(value@) == Some(p@),
            None => stream_protocol(value@) is None,
        },
{
    if text::is_text(value, "socks5") {
        Some(protocol::socks5())
    } else if text::is_text(value, "http") {
        Some(protocol::http_connect())
    } else {
        None
    }
}

fn parse_endpoint(id: EndpointId, f: &Vec<&[char]>) -> (r: Result<
    ProxyEndpointConfig<TrojanDatagramProvider>,
    String,
>)
    requires
        f@.len() >= 2,
        id@ == f@[1]@,
    ensures
        match r {
            Ok(e) => endpoint_of(text::texts(f@)) == Ok::<EndpointModel, Seq<char>>(
                endpoint_model(e),
            ) && trusts_public_roots(e@),
            Err(e) => endpoint_of(text::texts(f@)) == Err::<EndpointModel, Seq<char>>(e@),
        },
{
    let n: usize = f.len();
    let ghost fields = text::texts(f@);
    assert(forall|i: int| 0 <= i < n ==> fields[i] == f@[i]@);
    if n >= 4 && (n == 4 || (n == 5 && text::is_text(f[3], "tcp")) || (n == 6 && text::is_text(
        f[3],
        "tls",
    ))) {
        if let Some(protocol) = parse_stream_protocol(f[2]) {
            let transport = if n == 6 {
                match parse_tls_transport_raw(f[4], f[5]) {
                    Ok(t) => TransportConfig::Tls(t),
                    Err(e) => {
                        return Err(e);
                    },
                }
            } else {
                match parse_tcp_transport(f[n - 1]) {
                    Ok(t) => t,
                    Err(e) => {
                        return Err(e);
                    },
                }
            };
            return Ok(ProxyEndpointConfig { id, protocol, datagram: None, transport });
        }
    }
    if n == 7 && text::is_text(f[2], "trojan") && text::is_text(f[3], "tls") {
        proof {
            reveal_strlit("trojan");
            reveal_strlit("http");
            reveal_strlit("socks5");
        }
        let password = text::to_text(f[6]);
        let credential = match TrojanVerifier::new(password.as_str()) {
            Ok(c) => c,
            Err(e) => {
                return Err(e.text().to_owned());
            },
        };
        let tls = match parse_tls_transport_raw(f[4], f[5]) {
            Ok(t) => t,
            Err(e) => {
                return Err(e);
            },
        };
        return Ok(
            ProxyEndpointConfig {
                id,
                protocol: protocol::trojan_with_verifier(credential.clone()),
                datagram: Some(TrojanDatagramProvider::new(credential, tls.clone())),
                transport: TransportConfig::Tls(tls),
            },
        );
    }
    if n >= 3 && text::is_text(f[2], "trojan") {
        return Err(
            "Trojan endpoint syntax is `endpoint <id> trojan tls <ip:port> <server-name> <password>`; plain TCP is forbidden".to_owned(),
        );
    }
    Err(
        "endpoint syntax supports SOCKS5/HTTP over implicit TCP, explicit TCP or TLS, and Trojan over TLS only".to_owned(),
    )
}

struct ParsedAction {
    action: PolicyAction,
    proxy_ref: Option<EndpointId>,
}

fn parse_action(value: &[char]) -> (r: Result<ParsedAction, String>)
    ensures
        match r {
            Ok(a) => action_of(value@) == Ok::<(ActionView, Option<Seq<char>>), Seq<char>>(
                (
                    a.action@,
                    match a.proxy_ref {
                        Some(id) => Some(id@),
                        None => None,
                    },
                ),
            ),
            Err(e) => action_of(value@) == Err::<(ActionView, Option<Seq<char>>), Seq<char>>(e@),
        },
{
    if text::is_text(value, "direct") {
        return Ok(
            ParsedAction { action: PolicyAction::Route(Endpoint::Direct), proxy_ref: None },
        );
    }
    if text::is_text(value, "reject") {
        return Ok(
            ParsedAction { action: PolicyAction::Reject(RejectReason::Policy), proxy_ref: None },
        );
    }
    if !text::starts_with_of(value, "proxy:") {
        return Err("action must be `direct`, `reject`, or `proxy:<id>`".to_owned());
    }
    proof {
        reveal_strlit("proxy:");
    }
    let rest = &value[6..value.len()];
    assert(rest@ == value@.skip(6));
    let name = text::to_text(rest);
    match EndpointId::new(name.as_str()) {
        Ok(id) => Ok(
            ParsedAction {
                action: PolicyAction::Route(Endpoint::Proxy(id.clone())),
                proxy_ref: Some(id),
            },
        ),
        Err(e) => Err(e.text()),
    }
}

fn normalize_domain(value: &[char]) -> (r: Result<String, String>)
    ensures
        match r {
            Ok(d) => matcher_domain(value@) == Ok::<Seq<char>, Seq<char>>(d@),
            Err(e) => matcher_domain(value@) == Err::<Seq<char>, Seq<char>>(e@),
        },
{
    let low = text::lower_of(text::trim_of(value, Class::Is('.')));
    let name = text::to_text(low.as_slice());
    if low.len() == 0 || text::byte_len_of(name.as_str()) > 253 {
        Err("invalid domain matcher".to_owned())
    } else {
        Ok(name)
    }
}

fn parse_matcher(f: &Vec<&[char]>) -> (r: Result<Matcher, String>)
    requires
        f@.len() >= 3,
    ensures
        match r {
            Ok(m) => matcher_of(text::texts(f@)) == Ok::<MatcherView, Seq<char>>(m@) && m@.wf(),
            Err(e) => matcher_of(text::texts(f@)) == Err::<MatcherView, Seq<char>>(e@),
        },
{
    let ghost fields = text::texts(f@);
    assert(forall|i: int| 0 <= i < f@.len() ==> fields[i] == f@[i]@);
    let kind = f[2];
    if text::is_text(kind, "any") && f.len() == 3 {
        Ok(Matcher::Any)
    } else if text::is_text(kind, "domain-exact") && f.len() == 4 {
        match normalize_domain(f[3]) {
            Ok(d) => Ok(Matcher::DomainExact(d)),
            Err(e) => Err(e),
        }
    } else if text::is_text(kind, "domain-suffix") && f.len() == 4 {
        match normalize_domain(f[3]) {
            Ok(d) => Ok(Matcher::DomainSuffix(d)),
            Err(e) => Err(e),
        }
    } else if text::is_text(kind, "ip") && f.len() == 4 {
        match net::ip_of(f[3]) {
            Some(a) => Ok(Matcher::Ip(a)),
            None => Err("invalid IP address".to_owned()),
        }
    } else if text::is_text(kind, "cidr") && f.len() == 4 {
        match IpCidr::parse(f[3]) {
            Ok(c) => Ok(Matcher::Cidr(c)),
            Err(e) => Err(e.text()),
        }
    } else if text::is_text(kind, "port") && f.len() == 4 {
        match text::number_of(f[3], 65535) {
            None => Err("invalid destination port".to_owned()),
            Some(p) => if p == 0 {
                Err("destination port must not be zero".to_owned())
            } else {
                assert(p <= 65535);
                Ok(Matcher::Port(p as u16))
            },
        }
    } else if text::is_text(kind, "transport") && f.len() == 4 {
        if text::is_text(f[3], "tcp") {
            Ok(Matcher::Transport(TransportProtocol::Tcp))
        } else if text::is_text(f[3], "udp") {
            Ok(Matcher::Transport(TransportProtocol::Udp))
        } else {
            Err("transport matcher must be `tcp` or `udp`".to_owned())
        }
    } else {
        Err(
            "supported matchers: any, domain-exact, domain-suffix, ip, cidr, port, transport".to_owned(),
        )
    }
}

fn is_same_resolver(a: &ResolverConfig, b: &ResolverConfig) -> (r: bool)
    ensures
        r == same_resolver(a@, b@),
{
    match (a, b) {
        (ResolverConfig::System, ResolverConfig::System) => true,
        (ResolverConfig::Dot(x), ResolverConfig::Dot(y)) => {
            let p = text::chars_of(x.server_name());
            let q = text::chars_of(y.server_name());
            x.address() == y.address() && text::same_text_of(p.as_slice(), q.as_slice())
        },
        _ => false,
    }
}

fn parse_resolver(f: &Vec<&[char]>) -> (r: Result<ResolverConfig, String>)
    ensures
        match r {
            Ok(c) => resolver_of(text::texts(f@)) == Ok::<ResolverView, Seq<char>>(c@)
                && resolver_trusts_public_roots(c),
            Err(e) => resolver_of(text::texts(f@)) == Err::<ResolverView, Seq<char>>(e@),
        },
{
    let ghost fields = text::texts(f@);
    assert(forall|i: int| 0 <= i < f@.len() ==> fields[i] == f@[i]@);
    if f.len() == 2 && text::is_text(f[1], "system") {
        return Ok(ResolverConfig::System);
    }
    if f.len() == 4 && text::is_text(f[1], "dot") {
        let address = match net::socket_of(f[2]) {
            Some(a) => a,
            None => {
                return Err("DoT resolver address must be an IP socket address".to_owned());
            },
        };
        if address.port == 0 {
            return Err("DoT resolver port must not be zero".to_owned());
        }
        let name = text::to_text(f[3]);
        return match DotResolver::webpki(address, name.as_str()) {
            Ok(resolver) => Ok(ResolverConfig::Dot(resolver.transport().clone())),
            Err(e) => Err(e.text().to_owned()),
        };
    }
    Err(
        "resolver syntax is `resolver system` or `resolver dot <ip:port> <server-name>`".to_owned(),
    )
}

impl Draft {
    /// What every draft keeps.
    pub closed spec fn wf(self) -> bool {
        &&& self.table.wf()
        &&& policy::rules_wf(policy::rule_views(self.rules@))
        &&& forall|i: int|
            0 <= i < self.endpoints@.len() ==> trusts_public_roots(
                (#[trigger] self.endpoints@[i])@,
            )
        &&& forall|i: int|
            0 <= i < self.resolvers@.len() ==> resolver_trusts_public_roots(
                #[trigger] self.resolvers@[i],
            )
    }

    pub(crate) proof fn lemma_references(&self)
        ensures
            self@.references == id_views(self.references@),
    {
    }

    /// What the parts of a draft hold.
    pub(crate) proof fn lemma_fields(&self)
        requires
            self.wf(),
        ensures
            self.table.wf(),
            policy::rules_wf(policy::rule_views(self.rules@)),
            forall|i: int|
                0 <= i < self.endpoints@.len() ==> trusts_public_roots(
                    (#[trigger] self.endpoints@[i])@,
                ),
            forall|i: int|
                0 <= i < self.resolvers@.len() ==> resolver_trusts_public_roots(
                    #[trigger] self.resolvers@[i],
                ),
            self@ == (DraftView {
                version: self.version,
                default_action: match self.default_action {
                    Some(a) => Some(a@),
                    None => None,
                },
                allow_public: self.allow_public,
                listeners: self.listeners@,
                blocklists: blocklist_views(self.blocklists@),
                hosts: hosts_views(self.hosts@),
                table: self.table@,
                endpoints: endpoint_models(self.endpoints@),
                references: id_views(self.references@),
                rules: policy::rule_views(self.rules@),
                resolvers: resolver_views(self.resolvers@),
            }),
    {
    }

    pub fn new() -> (r: Draft)
        ensures
            r.wf(),
            r@ == empty_draft(),
    {
        let r = Draft {
            version: false,
            default_action: None,
            allow_public: None,
            listeners: Vec::new(),
            blocklists: Vec::new(),
            hosts: Vec::new(),
            table: HostsTable::new(),
            endpoints: Vec::new(),
            references: Vec::new(),
            rules: Vec::new(),
            resolvers: Vec::new(),
        };
        assert(r@ =~= empty_draft());
        r
    }

    fn version_line(&mut self, f: &Vec<&[char]>) -> (r: Result<(), String>)
        requires
            old(self).wf(),
        ensures
            final(self).wf(),
            says(version_line(old(self)@, text::texts(f@)), final(self)@, r),
    {
        proof {
            reveal(version_line);
        }
        if f.len() != 2 {
            return refused("version syntax is `version 1`");
        }
        assert(text::texts(f@)[1] == f@[1]@);
        if !text::is_text(f[1], "1") {
            return refused("expected exactly `version 1`");
        }
        if self.version {
            return refused("duplicate version directive");
        }
        self.version = true;
        Ok(())
    }

    fn public_line(&mut self, f: &Vec<&[char]>) -> (r: Result<(), String>)
        requires
            old(self).wf(),
        ensures
            final(self).wf(),
            says(public_line(old(self)@, text::texts(f@)), final(self)@, r),
    {
        proof {
            reveal(public_line);
        }
        if f.len() != 2 {
            return refused("allow-public-listen syntax is `allow-public-listen <true|false>`");
        }
        assert(text::texts(f@)[1] == f@[1]@);
        if self.allow_public.is_some() {
            return refused("duplicate allow-public-listen directive");
        }
        if text::is_text(f[1], "true") {
            self.allow_public = Some(true);
            Ok(())
        } else if text::is_text(f[1], "false") {
            self.allow_public = Some(false);
            Ok(())
        } else {
            refused("allow-public-listen must be `true` or `false`")
        }
    }

    fn listens_on(&self, address: SocketAddr) -> (r: bool)
        ensures
            r == has_listener(self@.listeners, address),
    {
        let mut i: usize = 0;
        while i < self.listeners.len()
            invariant
                i <= self@.listeners.len(),
                self@.listeners == self.listeners@,
                forall|j: int| 0 <= j < i ==> (#[trigger] self@.listeners[j]).address != address,
            decreases self@.listeners.len() - i,
        {
            if self.listeners[i].address == address {
                assert(self@.listeners[i as int].address == address);
                return true;
            }
            i = i + 1;
        }
        false
    }

    fn listen_line(&mut self, f: &Vec<&[char]>) -> (r: Result<(), String>)
        requires
            old(self).wf(),
        ensures
            final(self).wf(),
            says(listen_line(old(self)@, text::texts(f@)), final(self)@, r),
    {
        proof {
            reveal(listen_line);
        }
        if f.len() != 3 {
            return refused("listen syntax is `listen <socks5|http> <ip:port>`");
        }
        assert(text::texts(f@)[1] == f@[1]@ && text::texts(f@)[2] == f@[2]@);
        if self.listeners.len() >= MAX_LISTENERS {
            return refused("listener count exceeds 16");
        }
        let protocol = if text::is_text(f[1], "socks5") {
            ListenerProtocol::Socks5
        } else if text::is_text(f[1], "http") {
            ListenerProtocol::HttpConnect
        } else {
            return refused("listener protocol must be `socks5` or `http`");
        };
        let address = match net::socket_of(f[2]) {
            Some(a) => a,
            None => {
                return refused("invalid listener address");
            },
        };
        if address.port == 0 {
            return refused("listener port must not be zero");
        }
        if self.listens_on(address) {
            return refused("two listeners cannot bind the same socket address");
        }
        self.listeners.push(ListenerConfig { protocol, address });
        Ok(())
    }

    /// Whether an endpoint of that name was declared.
    pub(crate) fn declares(&self, id: &str) -> (r: bool)
        ensures
            r == has_endpoint(self@.endpoints, id@),
    {
        let mut i: usize = 0;
        while i < self.endpoints.len()
            invariant
                i <= self.endpoints@.len(),
                self@.endpoints == endpoint_models(self.endpoints@),
                forall|j: int| 0 <= j < i ==> (#[trigger] self@.endpoints[j]).id != id@,
            decreases self.endpoints@.len() - i,
        {
            assert(self@.endpoints[i as int].id == self.endpoints@[i as int].id@);
            if text::same(self.endpoints[i].id.as_str(), id) {
                return true;
            }
            i = i + 1;
        }
        false
    }

    fn endpoint_line(&mut self, f: &Vec<&[char]>) -> (r: Result<(), String>)
        requires
            old(self).wf(),
        ensures
            final(self).wf(),
            says(endpoint_line(old(self)@, text::texts(f@)), final(self)@, r),
    {
        proof {
            reveal(endpoint_line);
        }
        if self.endpoints.len() >= MAX_PROXY_ENDPOINTS {
            return refused("proxy endpoint count exceeds 64");
        }
        if f.len() < 2 {
            return refused("endpoint requires an id, protocol and transport configuration");
        }
        assert(text::texts(f@)[1] == f@[1]@);
        let name = text::to_text(f[1]);
        let id = match EndpointId::new(name.as_str()) {
            Ok(id) => id,
            Err(e) => {
                return Err(e.text());
            },
        };
        if self.declares(name.as_str()) {
            return refused("duplicate proxy endpoint id");
        }
        match parse_endpoint(id, f) {
            Ok(endpoint) => {
                self.endpoints.push(endpoint);
                assert(self@ =~= (DraftView {
                    endpoints: old(self)@.endpoints.push(endpoint_model(endpoint)),
                    ..old(self)@
                }));
                Ok(())
            },
            Err(e) => Err(e),
        }
    }

    fn default_line(&mut self, f: &Vec<&[char]>) -> (r: Result<(), String>)
        requires
            old(self).wf(),
        ensures
            final(self).wf(),
            says(default_line(old(self)@, text::texts(f@)), final(self)@, r),
    {
        proof {
            reveal(default_line);
        }
        if f.len() != 2 {
            return refused("default syntax is `default <direct|reject|proxy:id>`");
        }
        assert(text::texts(f@)[1] == f@[1]@);
        if self.default_action.is_some() {
            return refused("duplicate default directive");
        }
        match parse_action(f[1]) {
            Err(e) => Err(e),
            Ok(parsed) => {
                self.default_action = Some(parsed.action);
                if let Some(id) = parsed.proxy_ref {
                    self.references.push(id);
                    assert(self@.references =~= old(self)@.references.push(id@));
                }
                Ok(())
            },
        }
    }

    fn add_rule(&mut self, matcher: Matcher, action: PolicyAction)
        requires
            old(self).wf(),
            matcher@.wf(),
            old(self)@.rules.len() < MAX_RULES,
        ensures
            final(self).wf(),
            final(self)@ == (DraftView {
                rules: with_rule(old(self)@, matcher@, action@),
                ..old(self)@
            }),
    {
        let id = RuleId::new(self.rules.len() as u64 + 1);
        let rule = PolicyRule { id, tier: PolicyTier::UserHard, matcher, action };
        let ghost view = rule@;
        self.rules.push(rule);
        assert(self@.rules =~= old(self)@.rules.push(view));
    }

    fn lists(&self, path: &str) -> (r: bool)
        ensures
            r == has_blocklist(self@.blocklists, path@),
    {
        let mut i: usize = 0;
        while i < self.blocklists.len()
            invariant
                i <= self.blocklists@.len(),
                self@.blocklists == blocklist_views(self.blocklists@),
                forall|j: int|
                    0 <= j < i ==> !asset::same_path((#[trigger] self@.blocklists[j]).path, path@),
            decreases self.blocklists@.len() - i,
        {
            assert(self@.blocklists[i as int].path == self.blocklists@[i as int].path@);
            if asset::is_same_path(self.blocklists[i].path.as_str(), path) {
                return true;
            }
            i = i + 1;
        }
        false
    }

    fn blocklist_line(&mut self, f: &Vec<&[char]>, root: &str, assets: &Assets) -> (r: Result<
        (),
        String,
    >)
        requires
            old(self).wf(),
        ensures
            final(self).wf(),
            says(blocklist_line(old(self)@, text::texts(f@), root@, assets@), final(self)@, r),
    {
        proof {
            reveal(blocklist_line);
        }
        if f.len() != 2 {
            return refused(
                "blocklist syntax is `blocklist <path>`; paths with whitespace are not supported yet",
            );
        }
        assert(text::texts(f@)[1] == f@[1]@);
        if self.blocklists.len() >= MAX_BLOCKLISTS {
            return refused("blocklist count exceeds 8");
        }
        if self.rules.len() >= MAX_RULES {
            return refused("rule count exceeds 4096");
        }
        let path = asset::resolve_asset_path(root, f[1]);
        if self.lists(path.as_str()) {
            return refused("duplicate blocklist path");
        }
        let source = match assets.load(path.as_str(), MAX_BLOCKLIST_BYTES, "blocklist") {
            Ok(source) => source,
            Err(e) => {
                return Err(e);
            },
        };
        match blocklist::compile_blocklist(source) {
            Err(e) => {
                let reason = e.text();
                let mut out = text::join3("cannot compile blocklist ", path.as_str(), ": ");
                out.append(reason.as_str());
                Err(out)
            },
            Ok(compiled) => {
                let stats = compiled.stats();
                let filter = compiled.into_filter();
                self.add_rule(
                    Matcher::DomainFilter(filter),
                    PolicyAction::Reject(RejectReason::Policy),
                );
                let summary = BlocklistSummary { path, stats };
                let ghost view = summary@;
                self.blocklists.push(summary);
                assert(self@.blocklists =~= old(self)@.blocklists.push(view));
                Ok(())
            },
        }
    }

    fn has_hosts_file(&self, path: &str) -> (r: bool)
        ensures
            r == has_hosts(self@.hosts, path@),
    {
        let mut i: usize = 0;
        while i < self.hosts.len()
            invariant
                i <= self.hosts@.len(),
                self@.hosts == hosts_views(self.hosts@),
                forall|j: int|
                    0 <= j < i ==> !asset::same_path((#[trigger] self@.hosts[j]).path, path@),
            decreases self.hosts@.len() - i,
        {
            assert(self@.hosts[i as int].path == self.hosts@[i as int].path@);
            if asset::is_same_path(self.hosts[i].path.as_str(), path) {
                return true;
            }
            i = i + 1;
        }
        false
    }

    fn hosts_line(&mut self, f: &Vec<&[char]>, root: &str, assets: &Assets) -> (r: Result<
        (),
        String,
    >)
        requires
            old(self).wf(),
        ensures
            final(self).wf(),
            says(hosts_line(old(self)@, text::texts(f@), root@, assets@), final(self)@, r),
    {
        proof {
            reveal(hosts_line);
        }
        if f.len() != 2 {
            return refused(
                "hosts syntax is `hosts <path>`; paths with whitespace are not supported yet",
            );
        }
        assert(text::texts(f@)[1] == f@[1]@);
        if self.hosts.len() >= MAX_HOSTS_FILES {
            return refused("hosts file count exceeds 4");
        }
        let path = asset::resolve_asset_path(root, f[1]);
        if self.has_hosts_file(path.as_str()) {
            return refused("duplicate hosts path");
        }
        let source = match assets.load(path.as_str(), MAX_HOSTS_BYTES, "hosts") {
            Ok(source) => source,
            Err(e) => {
                return Err(e);
            },
        };
        match HostsTable::parse(source) {
            Err(e) => {
                let mut out = text::join3("cannot compile hosts ", path.as_str(), ": ");
                out.append(e.text());
                Err(out)
            },
            Ok(table) => {
                let records: usize = table.len();
                self.table.merge(table);
                let summary = HostsSummary { path, records };
                let ghost view = summary@;
                self.hosts.push(summary);
                assert(self@.hosts =~= old(self)@.hosts.push(view));
                Ok(())
            },
        }
    }

    fn rule_line(&mut self, f: &Vec<&[char]>) -> (r: Result<(), String>)
        requires
            old(self).wf(),
        ensures
            final(self).wf(),
            says(rule_line(old(self)@, text::texts(f@)), final(self)@, r),
    {
        proof {
            reveal(rule_line);
        }
        if self.rules.len() >= MAX_RULES {
            return refused("rule count exceeds 4096");
        }
        if f.len() < 3 {
            return refused("rule syntax is `rule <direct|reject|proxy:id> <matcher> [value]`");
        }
        assert(text::texts(f@)[1] == f@[1]@);
        let parsed = match parse_action(f[1]) {
            Ok(parsed) => parsed,
            Err(e) => {
                return Err(e);
            },
        };
        match parse_matcher(f) {
            Err(e) => Err(e),
            Ok(matcher) => {
                self.add_rule(matcher, parsed.action);
                if let Some(id) = parsed.proxy_ref {
                    self.references.push(id);
                    assert(self@.references =~= old(self)@.references.push(id@));
                }
                Ok(())
            },
        }
    }

    fn resolver_line(&mut self, f: &Vec<&[char]>) -> (r: Result<(), String>)
        requires
            old(self).wf(),
        ensures
            final(self).wf(),
            says(resolver_line(old(self)@, text::texts(f@)), final(self)@, r),
    {
        proof {
            reveal(resolver_line);
        }
        if self.resolvers.len() >= MAX_RESOLVERS {
            return refused("resolver count exceeds 8");
        }
        let resolver = match parse_resolver(f) {
            Ok(resolver) => resolver,
            Err(e) => {
                return Err(e);
            },
        };
        let mut i: usize = 0;
        while i < self.resolvers.len()
            invariant
                self.wf(),
                self@ == old(self)@,
                i <= self.resolvers@.len(),
                self@.resolvers == resolver_views(self.resolvers@),
                resolver_of(text::texts(f@)) == Ok::<ResolverView, Seq<char>>(resolver@),
                resolver_trusts_public_roots(resolver),
                old(self)@.resolvers.len() < MAX_RESOLVERS,
                forall|j: int|
                    0 <= j < i ==> !same_resolver(#[trigger] self@.resolvers[j], resolver@),
            decreases self.resolvers@.len() - i,
        {
            assert(self@.resolvers[i as int] == self.resolvers@[i as int]@);
            if is_same_resolver(&self.resolvers[i], &resolver) {
                proof {
                    reveal(resolver_line);
                }
                return refused("duplicate resolver");
            }
            i = i + 1;
        }
        let ghost view = resolver@;
        self.resolvers.push(resolver);
        assert(self@.resolvers =~= old(self)@.resolvers.push(view));
        assert(self@ =~= (DraftView {
            resolvers: old(self)@.resolvers.push(view),
            ..old(self)@
        }));
        Ok(())
    }

    /// Takes one line of the configuration.
    pub fn add_line(&mut self, raw: &[char], root: &str, assets: &Assets) -> (r: Result<
        (),
        String,
    >)
        requires
            old(self).wf(),
        ensures
            final(self).wf(),
            says(with_line(old(self)@, raw@, root@, assets@), final(self)@, r),
    {
        let f = text::fields_of(text::trim_of(text::before_of(raw, '#'), Class::Space));
        if f.len() == 0 {
            return Ok(());
        }
        proof {
            reveal(with_fields);
            assert(text::texts(f@)[0] == f@[0]@);
        }
        let word = f[0];
        if text::is_text(word, "version") {
            self.version_line(&f)
        } else if text::is_text(word, "allow-public-listen") {
            self.public_line(&f)
        } else if text::is_text(word, "listen") {
            self.listen_line(&f)
        } else if text::is_text(word, "endpoint") {
            self.endpoint_line(&f)
        } else if text::is_text(word, "default") {
            self.default_line(&f)
        } else if text::is_text(word, "blocklist") {
            self.blocklist_line(&f, root, assets)
        } else if text::is_text(word, "hosts") {
            self.hosts_line(&f, root, assets)
        } else if text::is_text(word, "rule") {
            self.rule_line(&f)
        } else if text::is_text(word, "resolver") {
            self.resolver_line(&f)
        } else {
            let name = text::to_text(word);
            Err(text::join3("unknown directive `", name.as_str(), "`"))
        }
    }
}

} // verus!
