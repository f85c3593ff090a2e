//! What the lines of an accepted configuration mean for what is compiled from them.

use crate::blocklist;
use crate::cidr;
use crate::config;
use crate::config::asset;
use crate::config::asset::{AssetMap, AssetView};
use crate::config::draft;
use crate::config::draft::{
    BlocklistSummaryView, DraftView, EndpointModel, Fields, HostsSummaryView, ListenerConfig,
    ListenerProtocol, ResolverView,
};
use crate::dns::hosts;
use crate::dns::hosts::HostsMap;
use crate::domain_set;
use crate::flow::{FlowView, HostView, TransportProtocol};
use crate::net;
use crate::net::IpAddr;
use crate::outbound::TransportView;
use crate::plan::{EndpointView, RejectReason};
use crate::policy;
use crate::policy::{ActionView, DecisionView, MatcherView, PolicyTier, RuleId, RuleView};
use crate::protocol::ProtocolView;
use crate::text;
use crate::text::Class;
use crate::trojan;
use vstd::prelude::*;

verus! {

/// The fields of the lines that begin with a word, in order.
pub open spec fn directives(lines: Seq<Seq<char>>, word: Seq<char>) -> Seq<Fields>
    decreases lines.len(),
{
    if lines.len() == 0 {
        Seq::empty()
    } else {
        let front = directives(lines.drop_last(), word);
        let f = draft::line_fields(lines.last());
        if f.len() > 0 && f[0] == word {
            front.push(f)
        } else {
            front
        }
    }
}

/// The fields of the lines that say what becomes of some flows, in order: rules and
/// blocklists.
pub open spec fn rule_directives(lines: Seq<Seq<char>>) -> Seq<Fields>
    decreases lines.len(),
{
    if lines.len() == 0 {
        Seq::empty()
    } else {
        let front = rule_directives(lines.drop_last());
        let f = draft::line_fields(lines.last());
        if f.len() > 0 && (f[0] == "rule"@ || f[0] == "blocklist"@) {
            front.push(f)
        } else {
            front
        }
    }
}

/// The listener of `listen <socks5|http> <ip:port>`.
pub open spec fn is_listener_of(l: ListenerConfig, f: Fields) -> bool {
    &&& f.len() == 3
    &&& net::socket(f[2]) == Some(l.address)
    &&& match l.protocol {
        ListenerProtocol::Socks5 => f[1] == "socks5"@,
        ListenerProtocol::HttpConnect => f[1] == "http"@,
    }
}

/// A carrier to an address in words, with a TLS identity or without.
pub open spec fn is_carrier_of(
    t: TransportView,
    address: Seq<char>,
    name: Option<Seq<char>>,
) -> bool {
    match (t, name) {
        (TransportView::Tcp(t), None) => net::socket(address) == Some(t.address),
        (TransportView::Tls(t), Some(n)) => net::socket(address) == Some(t.address)
            && t.server_name == n,
        _ => false,
    }
}

/// The endpoint of `endpoint <id> <socks5|http> [tcp] <ip:port>`, `endpoint <id>
/// <socks5|http> tls <ip:port> <name>` or `endpoint <id> trojan tls <ip:port> <name>
/// <password>`.
pub open spec fn is_endpoint_of(e: EndpointModel, f: Fields) -> bool {
    &&& f.len() >= 4
    &&& e.id == f[1]
    &&& match e.protocol {
        ProtocolView::Socks5 => f[2] == "socks5"@,
        ProtocolView::HttpConnect => f[2] == "http"@,
        ProtocolView::Trojan(credential) => f[2] == "trojan"@ && f.len() == 7 && credential
            == trojan::verifier_of(f[6]),
    }
    &&& if f.len() == 4 {
        is_carrier_of(e.transport, f[3], None)
    } else if f.len() == 5 {
        f[3] == "tcp"@ && is_carrier_of(e.transport, f[4], None)
    } else {
        f[3] == "tls"@ && is_carrier_of(e.transport, f[4], Some(f[5]))
    }
    &&& match e.datagram {
        Some(d) => e.protocol == ProtocolView::Trojan(d.credential) && e.transport
            == TransportView::Tls(d.transport),
        None => !(e.protocol is Trojan),
    }
}

/// The action of `direct`, `reject` or `proxy:<id>`.
pub open spec fn is_action_of(a: ActionView, word: Seq<char>) -> bool {
    match a {
        ActionView::Route(EndpointView::Direct) => word == "direct"@,
        ActionView::Route(EndpointView::Proxy(id)) => word == "proxy:"@ + id,
        ActionView::Reject(reason) => word == "reject"@ && reason == RejectReason::Policy,
    }
}

/// The resolver of `resolver system` or `resolver dot <ip:port> <name>`.
pub open spec fn is_resolver_of(r: ResolverView, f: Fields) -> bool {
    match r {
        ResolverView::System => f.len() == 2 && f[1] == "system"@,
        ResolverView::Dot(t) => f.len() == 4 && f[1] == "dot"@ && net::socket(f[2]) == Some(
            t.address,
        ) && t.server_name == f[3],
    }
}

/// The text of a file that was found.
pub open spec fn is_file(assets: AssetMap, path: Seq<char>, source: Seq<char>) -> bool {
    asset::asset_at(assets, path) matches AssetView::File { text, .. } && text == Ok::<
        Seq<char>,
        Seq<char>,
    >(source)
}

/// A list that is found at a path blocks the domain.
pub open spec fn list_blocks(assets: AssetMap, path: Seq<char>, domain: Seq<char>) -> bool {
    exists|source: Seq<char>| #[trigger]
        is_file(assets, path, source) && blocklist::blocklist(source) is Ok
            && blocklist::blocklist(source)->Ok_0.filter().blocks(domain)
}

/// The flow is one that `rule <action> <matcher> [value]` or `blocklist <path>` is
/// about.
pub open spec fn is_about(f: Fields, root: Seq<char>, assets: AssetMap, flow: FlowView) -> bool {
    let host = flow.destination.host;
    if f[0] == "blocklist"@ {
        host matches HostView::Domain(d) && list_blocks(assets, asset::asset_path(root, f[1]), d)
    } else if f[2] == "any"@ {
        true
    } else if f[2] == "domain-exact"@ {
        host matches HostView::Domain(d) && text::same_text(
            d,
            text::trim(f[3], Class::Is('.')),
        )
    } else if f[2] == "domain-suffix"@ {
        host matches HostView::Domain(d) && policy::has_suffix(d, f[3])
    } else if f[2] == "ip"@ {
        host matches HostView::Ip(a) && net::ip(f[3]) == Some(a)
    } else if f[2] == "cidr"@ {
        host matches HostView::Ip(a) && (cidr::cidr(f[3]) matches Ok(network) && network.has(a))
    } else if f[2] == "port"@ {
        text::number(f[3], 65535) == Some(flow.destination.port as nat)
    } else {
        &&& f[2] == "transport"@
        &&& match flow.transport {
            TransportProtocol::Tcp => f[3] == "tcp"@,
            TransportProtocol::Udp => f[3] == "udp"@,
        }
    }
}

/// The rule of a line that says what becomes of some flows: it is about the flows that
/// the line is about, and does with them what the line says.
pub open spec fn is_rule_of(r: RuleView, f: Fields, root: Seq<char>, assets: AssetMap) -> bool {
    &&& r.tier == PolicyTier::UserHard
    &&& if f[0] == "blocklist"@ {
        r.action == ActionView::Reject(RejectReason::Policy)
    } else {
        is_action_of(r.action, f[1])
    }
    &&& forall|flow: FlowView| #[trigger]
        r.matcher.holds(flow) <==> is_about(f, root, assets, flow)
}

/// A name has an address by the hosts file of `hosts <path>`.
pub open spec fn file_lists(
    f: Fields,
    root: Seq<char>,
    assets: AssetMap,
    name: Seq<char>,
    address: IpAddr,
) -> bool {
    f.len() == 2 && exists|source: Seq<char>| #[trigger]
        is_file(assets, asset::asset_path(root, f[1]), source) && hosts::hosts(source) is Ok
            && hosts::listed(hosts::hosts(source)->Ok_0.table, name).contains(address)
}

/// Some of the hosts files lists the address for the name.
pub open spec fn some_file_lists(
    ds: Seq<Fields>,
    root: Seq<char>,
    assets: AssetMap,
    name: Seq<char>,
    address: IpAddr,
) -> bool {
    exists|k: int|
        0 <= k < ds.len() && file_lists(#[trigger] ds[k], root, assets, name, address)
}

/// What every draft has of the lines that it was made of.
spec fn follows(
    st: DraftView,
    lines: Seq<Seq<char>>,
    root: Seq<char>,
    assets: AssetMap,
) -> bool {
    &&& follow_listeners(st.listeners, directives(lines, "listen"@))
    &&& follow_endpoints(st.endpoints, directives(lines, "endpoint"@))
    &&& follow_resolvers(st.resolvers, directives(lines, "resolver"@))
    &&& follow_rules(st.rules, rule_directives(lines), root, assets)
    &&& follow_hosts(st.table, directives(lines, "hosts"@), root, assets)
    &&& follow_default(st.default_action, directives(lines, "default"@))
    &&& follow_version(st.version, directives(lines, "version"@))
    &&& follow_public(st.allow_public, directives(lines, "allow-public-listen"@))
}

pub open spec fn follow_listeners(s: Seq<ListenerConfig>, ds: Seq<Fields>) -> bool {
    &&& s.len() == ds.len()
    &&& forall|k: int| 0 <= k < s.len() ==> is_listener_of(#[trigger] s[k], ds[k])
}

pub open spec fn follow_endpoints(s: Seq<EndpointModel>, ds: Seq<Fields>) -> bool {
    &&& s.len() == ds.len()
    &&& forall|k: int| 0 <= k < s.len() ==> is_endpoint_of(#[trigger] s[k], ds[k])
}

pub open spec fn follow_resolvers(s: Seq<ResolverView>, ds: Seq<Fields>) -> bool {
    &&& s.len() == ds.len()
    &&& forall|k: int| 0 <= k < s.len() ==> is_resolver_of(#[trigger] s[k], ds[k])
}

pub open spec fn follow_rules(
    s: Seq<RuleView>,
    ds: Seq<Fields>,
    root: Seq<char>,
    assets: AssetMap,
) -> bool {
    &&& s.len() == ds.len()
    &&& forall|k: int| 0 <= k < s.len() ==> is_rule_of(#[trigger] s[k], ds[k], root, assets)
}

pub open spec fn follow_hosts(
    table: HostsMap,
    ds: Seq<Fields>,
    root: Seq<char>,
    assets: AssetMap,
) -> bool {
    forall|name: Seq<char>, address: IpAddr| #[trigger]
        hosts::listed(table, name).contains(address) <==> some_file_lists(
            ds,
            root,
            assets,
            name,
            address,
        )
}

pub open spec fn follow_default(action: Option<ActionView>, ds: Seq<Fields>) -> bool {
    match action {
        None => ds.len() == 0,
        Some(a) => ds.len() == 1 && ds[0].len() == 2 && is_action_of(a, ds[0][1]),
    }
}

pub open spec fn follow_version(version: bool, ds: Seq<Fields>) -> bool {
    if version {
        ds == seq![seq!["version"@, "1"@]]
    } else {
        ds.len() == 0
    }
}

pub open spec fn follow_public(allow: Option<bool>, ds: Seq<Fields>) -> bool {
    match allow {
        None => ds.len() == 0,
        Some(b) => ds.len() == 1 && ds[0].len() == 2 && ds[0][1] == (if b {
            "true"@
        } else {
            "false"@
        }),
    }
}

/// The words of the directives differ.
proof fn lemma_words()
    ensures
        "version"@.len() == 7 && "version"@[0] == 'v',
        "allow-public-listen"@.len() == 19,
        "listen"@.len() == 6,
        "endpoint"@.len() == 8 && "endpoint"@[0] == 'e',
        "default"@.len() == 7 && "default"@[0] == 'd',
        "blocklist"@.len() == 9,
        "hosts"@.len() == 5,
        "rule"@.len() == 4,
        "resolver"@.len() == 8 && "resolver"@[0] == 'r',
{
    reveal_strlit("version");
    reveal_strlit("allow-public-listen");
    reveal_strlit("listen");
    reveal_strlit("endpoint");
    reveal_strlit("default");
    reveal_strlit("blocklist");
    reveal_strlit("hosts");
    reveal_strlit("rule");
    reveal_strlit("resolver");
}

/// A directive keeps all but what it is about.
spec fn same_but(
    st: DraftView,
    o: draft::Outcome,
    listeners: bool,
    endpoints: bool,
    resolvers: bool,
    rules: bool,
    table: bool,
    others: bool,
) -> bool {
    o matches Ok(v) ==> {
        &&& listeners || v.listeners == st.listeners
        &&& endpoints || v.endpoints == st.endpoints
        &&& resolvers || v.resolvers == st.resolvers
        &&& rules || v.rules == st.rules
        &&& table || v.table == st.table
        &&& others || (v.default_action == st.default_action && v.version == st.version
            && v.allow_public == st.allow_public)
    }
}

proof fn lemma_listen(st: DraftView, f: Fields, ds: Seq<Fields>)
    requires
        follow_listeners(st.listeners, ds),
    ensures
        draft::listen_line(st, f) matches Ok(v) ==> follow_listeners(v.listeners, ds.push(f)),
        same_but(st, draft::listen_line(st, f), true, false, false, false, false, false),
{
    reveal(draft::listen_line);
    if let Ok(v) = draft::listen_line(st, f) {
        let s = v.listeners;
        assert forall|k: int| 0 <= k < s.len() implies is_listener_of(
            #[trigger] s[k],
            ds.push(f)[k],
        ) by {
            if k < st.listeners.len() {
                assert(s[k] == st.listeners[k]);
            }
        }
    }
}

proof fn lemma_endpoint(st: DraftView, f: Fields, ds: Seq<Fields>)
    requires
        follow_endpoints(st.endpoints, ds),
    ensures
        draft::endpoint_line(st, f) matches Ok(v) ==> follow_endpoints(v.endpoints, ds.push(f)),
        same_but(st, draft::endpoint_line(st, f), false, true, false, false, false, false),
{
    reveal(draft::endpoint_line);
    if let Ok(v) = draft::endpoint_line(st, f) {
        let s = v.endpoints;
        assert(is_endpoint_of(draft::endpoint_of(f)->Ok_0, f));
        assert forall|k: int| 0 <= k < s.len() implies is_endpoint_of(
            #[trigger] s[k],
            ds.push(f)[k],
        ) by {
            if k < st.endpoints.len() {
                assert(s[k] == st.endpoints[k]);
            }
        }
    }
}

proof fn lemma_resolver(st: DraftView, f: Fields, ds: Seq<Fields>)
    requires
        follow_resolvers(st.resolvers, ds),
    ensures
        draft::resolver_line(st, f) matches Ok(v) ==> follow_resolvers(v.resolvers, ds.push(f)),
        same_but(st, draft::resolver_line(st, f), false, false, true, false, false, false),
{
    reveal(draft::resolver_line);
    if let Ok(v) = draft::resolver_line(st, f) {
        let s = v.resolvers;
        assert(is_resolver_of(draft::resolver_of(f)->Ok_0, f));
        assert forall|k: int| 0 <= k < s.len() implies is_resolver_of(
            #[trigger] s[k],
            ds.push(f)[k],
        ) by {
            if k < st.resolvers.len() {
                assert(s[k] == st.resolvers[k]);
            }
        }
    }
}

proof fn lemma_flags(
    st: DraftView,
    f: Fields,
    version: Seq<Fields>,
    public: Seq<Fields>,
    default: Seq<Fields>,
)
    requires
        f.len() > 0,
        follow_version(st.version, version),
        follow_public(st.allow_public, public),
        follow_default(st.default_action, default),
    ensures
        draft::version_line(st, f) matches Ok(v) ==> (f[0] == "version"@ ==> follow_version(
            v.version,
            version.push(f),
        )) && v.allow_public == st.allow_public && v.default_action == st.default_action,
        draft::public_line(st, f) matches Ok(v) ==> follow_public(v.allow_public, public.push(f))
            && v.version == st.version && v.default_action == st.default_action,
        draft::default_line(st, f) matches Ok(v) ==> follow_default(
            v.default_action,
            default.push(f),
        ) && v.version == st.version && v.allow_public == st.allow_public,
        same_but(st, draft::version_line(st, f), false, false, false, false, false, true),
        same_but(st, draft::public_line(st, f), false, false, false, false, false, true),
        same_but(st, draft::default_line(st, f), false, false, false, false, false, true),
{
    reveal(draft::version_line);
    reveal(draft::public_line);
    reveal(draft::default_line);
    if draft::version_line(st, f) is Ok && f[0] == "version"@ {
        assert(f =~= seq!["version"@, "1"@]);
        assert(version.push(f) =~= seq![seq!["version"@, "1"@]]);
    }
    if draft::default_line(st, f) is Ok {
        lemma_action(f[1]);
    }
}

proof fn lemma_action(word: Seq<char>)
    ensures
        draft::action_of(word) matches Ok((a, _)) ==> is_action_of(a, word),
{
    if draft::action_of(word) is Ok && word != "direct"@ && word != "reject"@ {
        let n = "proxy:"@.len() as int;
        assert(word =~= word.take(n) + word.skip(n));
    }
}

/// A domain of a matcher means the same in any case and with dots around it.
proof fn lemma_matcher_domain(domain: Seq<char>, value: Seq<char>)
    ensures
        draft::matcher_domain(value) matches Ok(n) ==> {
            &&& text::same_text(domain, n) == text::same_text(
                domain,
                text::trim(value, Class::Is('.')),
            )
            &&& policy::has_suffix(domain, n) == policy::has_suffix(domain, value)
        },
{
    if let Ok(n) = draft::matcher_domain(value) {
        let t = text::trim(value, Class::Is('.'));
        domain_set::law_normalizing_is_idempotent(value);
        let u = text::trim(n, Class::Is('.'));
        assert(text::lower(u) == text::lower(t));
        assert(text::lower(u).len() == u.len() && text::lower(t).len() == t.len());
        assert(text::lower(n) =~= text::lower(t)) by {
            assert forall|i: int| 0 <= i < n.len() implies text::lower(n)[i] == text::lower(t)[i] by {
                text::lemma_char(t[i]);
            }
        }
    }
}

/// The words of the matchers differ.
proof fn lemma_matcher_words()
    ensures
        "any"@.len() == 3,
        "domain-exact"@.len() == 12,
        "domain-suffix"@.len() == 13,
        "ip"@.len() == 2,
        "cidr"@.len() == 4 && "cidr"@[0] == 'c',
        "port"@.len() == 4 && "port"@[0] == 'p',
        "transport"@.len() == 9,
        "tcp"@[0] == 't' && "udp"@[0] == 'u',
{
    reveal_strlit("any");
    reveal_strlit("domain-exact");
    reveal_strlit("domain-suffix");
    reveal_strlit("ip");
    reveal_strlit("cidr");
    reveal_strlit("port");
    reveal_strlit("transport");
    reveal_strlit("tcp");
    reveal_strlit("udp");
}

proof fn lemma_domain_matcher(f: Fields, root: Seq<char>, assets: AssetMap, flow: FlowView)
    requires
        f.len() == 4,
        f[0] == "rule"@,
        f[2] == "domain-exact"@ || f[2] == "domain-suffix"@,
    ensures
        draft::matcher_of(f) matches Ok(m) ==> (m.holds(flow) <==> is_about(f, root, assets, flow)),
{
    lemma_words();
    lemma_matcher_words();
    match flow.destination.host {
        HostView::Domain(d) => {
            lemma_matcher_domain(d, f[3]);
            if let Ok(n) = draft::matcher_domain(f[3]) {
                let t = text::trim(f[3], Class::Is('.'));
                assert(MatcherView::DomainExact(n).holds(flow) == text::same_text(d, n));
                assert(MatcherView::DomainSuffix(n).holds(flow) == policy::has_suffix(d, n));
                if f[2] == "domain-exact"@ {
                    assert(is_about(f, root, assets, flow) == text::same_text(d, t));
                } else {
                    assert(is_about(f, root, assets, flow) == policy::has_suffix(d, f[3]));
                }
            }
        },
        HostView::Ip(_) => {},
    }
}

proof fn lemma_matcher(f: Fields, root: Seq<char>, assets: AssetMap, flow: FlowView)
    requires
        f.len() >= 3,
        f[0] == "rule"@,
    ensures
        draft::matcher_of(f) matches Ok(m) ==> (m.holds(flow) <==> is_about(f, root, assets, flow)),
{
    if f[2] == "domain-exact"@ || f[2] == "domain-suffix"@ {
        lemma_matcher_words();
        if f.len() == 4 {
            lemma_domain_matcher(f, root, assets, flow);
        }
    } else {
        lemma_words();
        lemma_matcher_words();
    }
}

proof fn lemma_rule(
    st: DraftView,
    f: Fields,
    ds: Seq<Fields>,
    root: Seq<char>,
    assets: AssetMap,
)
    requires
        f.len() > 0,
        f[0] == "rule"@,
        follow_rules(st.rules, ds, root, assets),
    ensures
        draft::rule_line(st, f) matches Ok(v) ==> follow_rules(v.rules, ds.push(f), root, assets),
        same_but(st, draft::rule_line(st, f), false, false, false, true, false, false),
{
    reveal(draft::rule_line);
    lemma_words();
    if let Ok(v) = draft::rule_line(st, f) {
        let s = v.rules;
        lemma_action(f[1]);
        let r = s.last();
        assert forall|flow: FlowView| #[trigger] r.matcher.holds(flow) <==> is_about(
            f,
            root,
            assets,
            flow,
        ) by {
            lemma_matcher(f, root, assets, flow);
        }
        assert(is_rule_of(r, f, root, assets));
        assert forall|k: int| 0 <= k < s.len() implies is_rule_of(
            #[trigger] s[k],
            ds.push(f)[k],
            root,
            assets,
        ) by {
            if k < st.rules.len() {
                assert(s[k] == st.rules[k]);
            }
        }
    }
}

proof fn lemma_blocklist(
    st: DraftView,
    f: Fields,
    ds: Seq<Fields>,
    root: Seq<char>,
    assets: AssetMap,
)
    requires
        f.len() > 0,
        f[0] == "blocklist"@,
        follow_rules(st.rules, ds, root, assets),
    ensures
        draft::blocklist_line(st, f, root, assets) matches Ok(v) ==> follow_rules(
            v.rules,
            ds.push(f),
            root,
            assets,
        ),
        same_but(st, draft::blocklist_line(st, f, root, assets), false, false, false, true, false, false),
{
    reveal(draft::blocklist_line);
    if let Ok(v) = draft::blocklist_line(st, f, root, assets) {
        let s = v.rules;
        let r = s.last();
        let path = asset::asset_path(root, f[1]);
        let source = asset::loaded(
            assets,
            path,
            blocklist::MAX_BLOCKLIST_BYTES as nat,
            "blocklist"@,
        )->Ok_0;
        assert(is_file(assets, path, source));
        assert forall|flow: FlowView| #[trigger] r.matcher.holds(flow) <==> is_about(
            f,
            root,
            assets,
            flow,
        ) by {
            if let HostView::Domain(d) = flow.destination.host {
                if list_blocks(assets, path, d) {
                    let other = choose|other: Seq<char>| #[trigger]
                        is_file(assets, path, other) && blocklist::blocklist(other) is Ok
                            && blocklist::blocklist(other)->Ok_0.filter().blocks(d);
                    assert(other == source);
                }
            }
        }
        assert(is_rule_of(r, f, root, assets));
        assert forall|k: int| 0 <= k < s.len() implies is_rule_of(
            #[trigger] s[k],
            ds.push(f)[k],
            root,
            assets,
        ) by {
            if k < st.rules.len() {
                assert(s[k] == st.rules[k]);
            }
        }
    }
}

proof fn lemma_hosts(
    st: DraftView,
    f: Fields,
    ds: Seq<Fields>,
    root: Seq<char>,
    assets: AssetMap,
)
    requires
        follow_hosts(st.table, ds, root, assets),
    ensures
        draft::hosts_line(st, f, root, assets) matches Ok(v) ==> follow_hosts(
            v.table,
            ds.push(f),
            root,
            assets,
        ),
        same_but(st, draft::hosts_line(st, f, root, assets), false, false, false, false, true, false),
{
    reveal(draft::hosts_line);
    if let Ok(v) = draft::hosts_line(st, f, root, assets) {
        let path = asset::asset_path(root, f[1]);
        let source = asset::loaded(assets, path, hosts::MAX_HOSTS_BYTES as nat, "hosts"@)->Ok_0;
        let more = hosts::hosts(source)->Ok_0.table;
        let all = ds.push(f);
        assert(is_file(assets, path, source));
        assert forall|name: Seq<char>, address: IpAddr| #[trigger]
            hosts::listed(v.table, name).contains(address) <==> some_file_lists(
            all,
            root,
            assets,
            name,
            address,
        ) by {
            hosts::law_added_addresses_follow(hosts::listed(st.table, name), hosts::listed(more, name));
            assert(hosts::listed(v.table, name) =~= hosts::with_addresses(
                hosts::listed(st.table, name),
                hosts::listed(more, name),
            ));
            assert(hosts::listed(st.table, name).contains(address) <==> some_file_lists(
                ds,
                root,
                assets,
                name,
                address,
            ));
            if file_lists(f, root, assets, name, address) {
                let other = choose|other: Seq<char>| #[trigger]
                    is_file(assets, path, other) && hosts::hosts(other) is Ok && hosts::listed(
                        hosts::hosts(other)->Ok_0.table,
                        name,
                    ).contains(address);
                assert(other == source);
                assert(all[ds.len() as int] == f);
            }
            if some_file_lists(ds, root, assets, name, address) {
                let k = choose|k: int|
                    0 <= k < ds.len() && file_lists(#[trigger] ds[k], root, assets, name, address);
                assert(all[k] == ds[k]);
            }
            if some_file_lists(all, root, assets, name, address) {
                let k = choose|k: int|
                    0 <= k < all.len() && file_lists(
                        #[trigger] all[k],
                        root,
                        assets,
                        name,
                        address,
                    );
                if k < ds.len() {
                    assert(ds[k] == all[k]);
                }
            }
        }
    }
}

proof fn lemma_step(
    st: DraftView,
    lines: Seq<Seq<char>>,
    root: Seq<char>,
    assets: AssetMap,
)
    requires
        lines.len() > 0,
        follows(st, lines.drop_last(), root, assets),
    ensures
        draft::with_line(st, lines.last(), root, assets) matches Ok(v) ==> follows(
            v,
            lines,
            root,
            assets,
        ),
{
    let front = lines.drop_last();
    let f = draft::line_fields(lines.last());
    lemma_words();
    reveal(draft::with_fields);
    lemma_listen(st, f, directives(front, "listen"@));
    lemma_endpoint(st, f, directives(front, "endpoint"@));
    lemma_resolver(st, f, directives(front, "resolver"@));
    lemma_hosts(st, f, directives(front, "hosts"@), root, assets);
    if f.len() > 0 {
        lemma_flags(
            st,
            f,
            directives(front, "version"@),
            directives(front, "allow-public-listen"@),
            directives(front, "default"@),
        );
        if f[0] == "rule"@ {
            lemma_rule(st, f, rule_directives(front), root, assets);
        } else if f[0] == "blocklist"@ {
            lemma_blocklist(st, f, rule_directives(front), root, assets);
        }
    }
}

proof fn lemma_follows(lines: Seq<Seq<char>>, root: Seq<char>, assets: AssetMap)
    ensures
        config::read_lines(lines, root, assets) matches Ok(st) ==> follows(st, lines, root, assets),
    decreases lines.len(),
{
    if lines.len() > 0 {
        lemma_follows(lines.drop_last(), root, assets);
        if let Ok(st) = config::read_lines(lines.drop_last(), root, assets) {
            lemma_step(st, lines, root, assets);
        }
    }
}

/// The listeners are those that are declared, in order: for `listen socks5 A` one that
/// speaks SOCKS5 at the address that A denotes, for `listen http A` one that speaks
/// HTTP CONNECT there.
pub proof fn law_listeners_are_those_declared(s: Seq<char>, root: Seq<char>, assets: AssetMap)
    ensures
        config::config(s, root, assets) matches Ok(c) ==> {
            let ds = directives(text::lines(s), "listen"@);
            &&& c.listeners.len() == ds.len()
            &&& forall|k: int|
                0 <= k < ds.len() ==> {
                    let l = #[trigger] c.listeners[k];
                    &&& ds[k].len() == 3
                    &&& net::socket(ds[k][2]) == Some(l.address)
                    &&& ds[k][1] == "socks5"@ || ds[k][1] == "http"@
                    &&& ds[k][1] == "socks5"@ <==> l.protocol == ListenerProtocol::Socks5
                    &&& ds[k][1] == "http"@ <==> l.protocol == ListenerProtocol::HttpConnect
                }
        },
{
    lemma_follows(text::lines(s), root, assets);
    reveal_strlit("socks5");
    reveal_strlit("http");
    assert("socks5"@.len() == 6 && "http"@.len() == 4);
    if let Ok(c) = config::config(s, root, assets) {
        let ds = directives(text::lines(s), "listen"@);
        assert forall|k: int| 0 <= k < ds.len() implies is_listener_of(
            #[trigger] c.listeners[k],
            ds[k],
        ) by {}
    }
}

/// The endpoints are those that are declared, in order: each has the name, the protocol,
/// the address, the TLS identity and the password of its line.
pub proof fn law_endpoints_are_those_declared(s: Seq<char>, root: Seq<char>, assets: AssetMap)
    ensures
        config::config(s, root, assets) matches Ok(c) ==> follow_endpoints(
            c.endpoints,
            directives(text::lines(s), "endpoint"@),
        ),
{
    lemma_follows(text::lines(s), root, assets);
}

/// The resolvers are those that are declared, in order; where none is declared, there
/// is that of the system.
pub proof fn law_resolvers_are_those_declared(s: Seq<char>, root: Seq<char>, assets: AssetMap)
    ensures
        config::config(s, root, assets) matches Ok(c) ==> {
            let ds = directives(text::lines(s), "resolver"@);
            if ds.len() == 0 {
                c.resolvers == seq![ResolverView::System]
            } else {
                follow_resolvers(c.resolvers, ds)
            }
        },
{
    lemma_follows(text::lines(s), root, assets);
}

/// There is a rule for each line that is about flows, in order, and it does what its
/// line says with the flows that its line is about; what no rule is about is done by
/// the one line for the rest.
pub proof fn law_rules_are_those_declared(s: Seq<char>, root: Seq<char>, assets: AssetMap)
    ensures
        config::config(s, root, assets) matches Ok(c) ==> {
            let rest = directives(text::lines(s), "default"@);
            &&& follow_rules(c.policy.rules, rule_directives(text::lines(s)), root, assets)
            &&& rest.len() == 1 && rest[0].len() == 2
            &&& is_action_of(c.policy.default_action, rest[0][1])
        },
{
    lemma_follows(text::lines(s), root, assets);
}

/// A name has the addresses that some of the declared hosts files list for it, and no
/// others.
pub proof fn law_hosts_are_those_of_the_files(s: Seq<char>, root: Seq<char>, assets: AssetMap)
    ensures
        config::config(s, root, assets) matches Ok(c) ==> follow_hosts(
            c.table,
            directives(text::lines(s), "hosts"@),
            root,
            assets,
        ),
{
    lemma_follows(text::lines(s), root, assets);
}

/// An accepted configuration says its version, has a listener, and where a listener can
/// be reached from other machines says that this is wanted.
pub proof fn law_accepted_config_is_complete(s: Seq<char>, root: Seq<char>, assets: AssetMap)
    ensures
        config::config(s, root, assets) matches Ok(c) ==> {
            let lines = text::lines(s);
            let public = directives(lines, "allow-public-listen"@);
            &&& directives(lines, "version"@) == seq![seq!["version"@, "1"@]]
            &&& directives(lines, "listen"@).len() > 0
            &&& forall|k: int|
                0 <= k < c.listeners.len() && !(
                #[trigger] c.listeners[k]).address.ip.spec_is_loopback() ==> public.len() == 1
                    && public[0].len() == 2 && public[0][1] == "true"@
        },
{
    lemma_follows(text::lines(s), root, assets);
}

/// The first line that is about a flow decides what becomes of it; where there is none,
/// the line for the rest does.
pub proof fn law_first_line_about_a_flow_decides(
    s: Seq<char>,
    root: Seq<char>,
    assets: AssetMap,
    flow: FlowView,
    k: int,
)
    requires
        ({
            let ds = rule_directives(text::lines(s));
            &&& 0 <= k <= ds.len()
            &&& k < ds.len() ==> is_about(ds[k], root, assets, flow)
            &&& forall|j: int| 0 <= j < k ==> !is_about(#[trigger] ds[j], root, assets, flow)
        }),
    ensures
        config::config(s, root, assets) matches Ok(c) ==> {
            let ds = rule_directives(text::lines(s));
            let d = c.policy.decides(flow);
            if k == ds.len() {
                d.rule_id is None && is_action_of(
                    d.action,
                    directives(text::lines(s), "default"@)[0][1],
                )
            } else {
                &&& d.rule_id == Some(RuleId::spec_new((k + 1) as u64))
                &&& if ds[k][0] == "blocklist"@ {
                    d.action == ActionView::Reject(RejectReason::Policy)
                } else {
                    is_action_of(d.action, ds[k][1])
                }
            }
        },
{
    lemma_follows(text::lines(s), root, assets);
    config::law_compiled_config_is_sound(s, root, assets);
    if let Ok(c) = config::config(s, root, assets) {
        let ds = rule_directives(text::lines(s));
        let rules = c.policy.rules;
        let d = c.policy.decides(flow);
        assert(follow_rules(rules, ds, root, assets));
        assert forall|j: int| 0 <= j < rules.len() implies (#[trigger] rules[j]).matcher.holds(flow)
            == is_about(ds[j], root, assets, flow) && rules[j].tier == PolicyTier::UserHard by {
            assert(is_rule_of(rules[j], ds[j], root, assets));
        }
        policy::law_decision_is_the_governing_rule(c.policy, flow);
        if k < ds.len() {
            assert(rules[k].matcher.holds(flow));
            let i = choose|i: int| #[trigger]
                policy::governs(rules, i, flow) && d == (DecisionView {
                    rule_id: Some(rules[i].id),
                    tier: rules[i].tier,
                    action: rules[i].action,
                });
            assert(policy::governs(rules, i, flow));
            assert(i <= k);
            assert(is_about(ds[i], root, assets, flow));
            assert(i == k);
            assert(is_rule_of(rules[k], ds[k], root, assets));
        } else if exists|i: int| policy::governs(rules, i, flow) {
            let i = choose|i: int| policy::governs(rules, i, flow);
            assert(rules[i].matcher.holds(flow));
            assert(is_about(ds[i], root, assets, flow));
        }
    }
}

/// The address is one that a socket can have: it denotes an address with a port.
pub open spec fn is_usable_address(s: Seq<char>) -> bool {
    net::socket(s) matches Some(a) && a.port != 0
}

/// A `listen` line is taken exactly where it has the two words that it needs, knows the
/// protocol, and names an address with a port that nobody listens on yet, as long as
/// there is room.
pub proof fn law_listen_line_is_taken(
    st: DraftView,
    raw: Seq<char>,
    root: Seq<char>,
    assets: AssetMap,
)
    requires
        draft::line_fields(raw).len() > 0,
        draft::line_fields(raw)[0] == "listen"@,
    ensures
        ({
            let f = draft::line_fields(raw);
            draft::with_line(st, raw, root, assets) is Ok <==> {
                &&& f.len() == 3
                &&& f[1] == "socks5"@ || f[1] == "http"@
                &&& is_usable_address(f[2])
                &&& st.listeners.len() < 16
                &&& forall|k: int|
                    0 <= k < st.listeners.len() ==> net::socket(f[2]) != Some(
                        (#[trigger] st.listeners[k]).address,
                    )
            }
        }),
{
    reveal(draft::with_fields);
    reveal(draft::listen_line);
    lemma_words();
    let f = draft::line_fields(raw);
    if f.len() == 3 {
        if let Some(a) = net::socket(f[2]) {
            if draft::has_listener(st.listeners, a) {
                let k = choose|k: int|
                    0 <= k < st.listeners.len() && (#[trigger] st.listeners[k]).address == a;
                assert(net::socket(f[2]) == Some(st.listeners[k].address));
            }
        }
    }
}

/// An `endpoint` line is taken exactly where its name is new and well formed, its
/// address is usable, its TLS identity is a server name, its password can be one, and
/// there is room. Trojan is taken over TLS alone.
pub proof fn law_endpoint_line_is_taken(
    st: DraftView,
    raw: Seq<char>,
    root: Seq<char>,
    assets: AssetMap,
)
    requires
        draft::line_fields(raw).len() > 0,
        draft::line_fields(raw)[0] == "endpoint"@,
    ensures
        ({
            let f = draft::line_fields(raw);
            let n = f.len();
            draft::with_line(st, raw, root, assets) is Ok <==> {
                &&& n >= 4
                &&& crate::plan::is_endpoint_id(f[1])
                &&& forall|k: int|
                    0 <= k < st.endpoints.len() ==> (#[trigger] st.endpoints[k]).id != f[1]
                &&& st.endpoints.len() < 64
                &&& if f[2] == "trojan"@ {
                    n == 7 && f[3] == "tls"@ && is_usable_address(f[4])
                        && crate::transport::is_server_name(f[5]) && 1 <= text::byte_len(f[6])
                        <= 1024
                } else {
                    &&& f[2] == "socks5"@ || f[2] == "http"@
                    &&& (n == 4 && is_usable_address(f[3])) || (n == 5 && f[3] == "tcp"@
                        && is_usable_address(f[4])) || (n == 6 && f[3] == "tls"@
                        && is_usable_address(f[4]) && crate::transport::is_server_name(f[5]))
                }
            }
        }),
{
    reveal(draft::with_fields);
    reveal(draft::endpoint_line);
    lemma_words();
    reveal_strlit("trojan");
    reveal_strlit("socks5");
    reveal_strlit("http");
    assert("trojan"@.len() == 6 && "trojan"@[0] == 't');
    assert("socks5"@.len() == 6 && "socks5"@[0] == 's');
    assert("http"@.len() == 4);
    let f = draft::line_fields(raw);
    if f.len() >= 2 && draft::has_endpoint(st.endpoints, f[1]) {
        let k = choose|k: int|
            0 <= k < st.endpoints.len() && (#[trigger] st.endpoints[k]).id == f[1];
        assert(st.endpoints[k].id == f[1]);
    }
}

/// The word is an action: `direct`, `reject`, or `proxy:` with a name.
pub open spec fn is_action_word(s: Seq<char>) -> bool {
    ||| s == "direct"@
    ||| s == "reject"@
    ||| exists|id: Seq<char>| #[trigger] crate::plan::is_endpoint_id(id) && s == "proxy:"@ + id
}

proof fn lemma_action_word(s: Seq<char>)
    ensures
        draft::action_of(s) is Ok <==> is_action_word(s),
{
    let proxy = "proxy:"@;
    reveal_strlit("proxy:");
    reveal_strlit("direct");
    reveal_strlit("reject");
    if text::starts_with(s, proxy) {
        let id = s.skip(proxy.len() as int);
        assert(s =~= proxy + id);
        if is_action_word(s) && s != "direct"@ && s != "reject"@ {
            let other = choose|other: Seq<char>| #[trigger]
                crate::plan::is_endpoint_id(other) && s == proxy + other;
            assert((proxy + other).skip(proxy.len() as int) =~= other);
        }
    } else if exists|id: Seq<char>| #[trigger]
        crate::plan::is_endpoint_id(id) && s == proxy + id {
        let id = choose|id: Seq<char>| #[trigger]
            crate::plan::is_endpoint_id(id) && s == proxy + id;
        assert((proxy + id).take(proxy.len() as int) =~= proxy);
    }
}

/// The value is one that the matcher can have.
pub open spec fn is_matcher_value(kind: Seq<char>, value: Seq<char>) -> bool {
    if kind == "domain-exact"@ || kind == "domain-suffix"@ {
        1 <= text::byte_len(text::lower(text::trim(value, Class::Is('.')))) <= 253
    } else if kind == "ip"@ {
        net::ip(value) is Some
    } else if kind == "cidr"@ {
        cidr::cidr(value) is Ok
    } else if kind == "port"@ {
        text::number(value, 65535) matches Some(p) && p > 0
    } else {
        kind == "transport"@ && (value == "tcp"@ || value == "udp"@)
    }
}

/// A `rule` line is taken exactly where it has an action and a matcher with a value
/// that the matcher can have, and there is room.
pub proof fn law_rule_line_is_taken(
    st: DraftView,
    raw: Seq<char>,
    root: Seq<char>,
    assets: AssetMap,
)
    requires
        draft::line_fields(raw).len() > 0,
        draft::line_fields(raw)[0] == "rule"@,
    ensures
        ({
            let f = draft::line_fields(raw);
            draft::with_line(st, raw, root, assets) is Ok <==> {
                &&& f.len() >= 3
                &&& is_action_word(f[1])
                &&& (f.len() == 3 && f[2] == "any"@) || (f.len() == 4 && is_matcher_value(
                    f[2],
                    f[3],
                ))
                &&& st.rules.len() < 4096
            }
        }),
{
    reveal(draft::with_fields);
    reveal(draft::rule_line);
    lemma_words();
    lemma_matcher_words();
    let f = draft::line_fields(raw);
    if f.len() >= 3 {
        lemma_action_word(f[1]);
        if f.len() == 4 {
            text::lemma_empty_text(text::lower(text::trim(f[3], Class::Is('.'))));
        }
    }
}

/// A `default` line is taken exactly where it has an action and is the first.
pub proof fn law_default_line_is_taken(
    st: DraftView,
    raw: Seq<char>,
    root: Seq<char>,
    assets: AssetMap,
)
    requires
        draft::line_fields(raw).len() > 0,
        draft::line_fields(raw)[0] == "default"@,
    ensures
        ({
            let f = draft::line_fields(raw);
            draft::with_line(st, raw, root, assets) is Ok <==> f.len() == 2 && is_action_word(f[1])
                && st.default_action is None
        }),
{
    reveal(draft::with_fields);
    reveal(draft::default_line);
    lemma_words();
    let f = draft::line_fields(raw);
    if f.len() == 2 {
        lemma_action_word(f[1]);
    }
}

/// A `resolver` line is taken exactly where it declares the system's resolver or one
/// with a usable address and a server name, no resolver is declared twice, and there is
/// room.
pub proof fn law_resolver_line_is_taken(
    st: DraftView,
    raw: Seq<char>,
    root: Seq<char>,
    assets: AssetMap,
)
    requires
        draft::line_fields(raw).len() > 0,
        draft::line_fields(raw)[0] == "resolver"@,
    ensures
        ({
            let f = draft::line_fields(raw);
            draft::with_line(st, raw, root, assets) is Ok <==> {
                &&& st.resolvers.len() < 8
                &&& ({
                    &&& f.len() == 2 && f[1] == "system"@
                    &&& !st.resolvers.contains(ResolverView::System)
                }) || ({
                    &&& f.len() == 4 && f[1] == "dot"@
                    &&& is_usable_address(f[2]) && crate::transport::is_server_name(f[3])
                    &&& forall|k: int|
                        0 <= k < st.resolvers.len() ==> !((
                        #[trigger] st.resolvers[k]) matches ResolverView::Dot(t) && net::socket(
                            f[2],
                        ) == Some(t.address) && text::same_text(t.server_name, f[3]))
                })
            }
        }),
{
    reveal(draft::with_fields);
    reveal(draft::resolver_line);
    lemma_words();
    let f = draft::line_fields(raw);
    let s = st.resolvers;
    if let Ok(r) = draft::resolver_of(f) {
        if draft::has_resolver(s, r) {
            let k = choose|k: int| 0 <= k < s.len() && draft::same_resolver(#[trigger] s[k], r);
            assert(r is System ==> s[k] == ResolverView::System);
            assert(draft::same_resolver(s[k], r));
        } else {
            assert forall|k: int| 0 <= k < s.len() implies !draft::same_resolver(
                #[trigger] s[k],
                r,
            ) by {}
            if s.contains(ResolverView::System) {
                let k = s.index_of(ResolverView::System);
                assert(!draft::same_resolver(s[k], r));
            }
        }
    }
}

/// The flags are taken once each, with a value that they know.
pub proof fn law_flag_lines_are_taken(
    st: DraftView,
    raw: Seq<char>,
    root: Seq<char>,
    assets: AssetMap,
)
    requires
        draft::line_fields(raw).len() > 0,
    ensures
        ({
            let f = draft::line_fields(raw);
            let taken = draft::with_line(st, raw, root, assets) is Ok;
            &&& f[0] == "version"@ ==> (taken <==> f.len() == 2 && f[1] == "1"@ && !st.version)
            &&& f[0] == "allow-public-listen"@ ==> (taken <==> f.len() == 2 && (f[1] == "true"@
                || f[1] == "false"@) && st.allow_public is None)
        }),
{
    reveal(draft::with_fields);
    reveal(draft::version_line);
    reveal(draft::public_line);
    lemma_words();
}

/// A `blocklist` or `hosts` line is taken exactly where its file is there, can be read,
/// is not too large and is a list of its kind, has not been named before, and there is
/// room.
pub proof fn law_file_lines_are_taken(
    st: DraftView,
    raw: Seq<char>,
    root: Seq<char>,
    assets: AssetMap,
    size: u64,
    source: Seq<char>,
)
    requires
        draft::line_fields(raw).len() == 2,
        asset::asset_at(assets, asset::asset_path(root, draft::line_fields(raw)[1])) == (
        AssetView::File { size, text: Ok(source) }),
    ensures
        ({
            let f = draft::line_fields(raw);
            let path = asset::asset_path(root, f[1]);
            let taken = draft::with_line(st, raw, root, assets) is Ok;
            &&& f[0] == "blocklist"@ ==> (taken <==> size <= 8 * 1024 * 1024
                && blocklist::blocklist(source) is Ok && st.blocklists.len() < 8 && st.rules.len()
                < 4096 && forall|k: int|
                0 <= k < st.blocklists.len() ==> !asset::same_path(
                    (#[trigger] st.blocklists[k]).path,
                    path,
                ))
            &&& f[0] == "hosts"@ ==> (taken <==> size <= 4 * 1024 * 1024 && hosts::hosts(source)
                is Ok && st.hosts.len() < 4 && forall|k: int|
                0 <= k < st.hosts.len() ==> !asset::same_path((#[trigger] st.hosts[k]).path, path))
        }),
{
    reveal(draft::with_fields);
    reveal(draft::blocklist_line);
    reveal(draft::hosts_line);
    lemma_words();
    let f = draft::line_fields(raw);
    let path = asset::asset_path(root, f[1]);
    if draft::has_blocklist(st.blocklists, path) {
        let k = choose|k: int|
            0 <= k < st.blocklists.len() && asset::same_path(
                (#[trigger] st.blocklists[k]).path,
                path,
            );
        assert(asset::same_path(st.blocklists[k].path, path));
    }
    if draft::has_hosts(st.hosts, path) {
        let k = choose|k: int|
            0 <= k < st.hosts.len() && asset::same_path((#[trigger] st.hosts[k]).path, path);
        assert(asset::same_path(st.hosts[k].path, path));
    }
}

/// A blank line or a comment changes nothing, and a word that is no directive is
/// refused.
pub proof fn law_unknown_words_are_refused(
    st: DraftView,
    raw: Seq<char>,
    root: Seq<char>,
    assets: AssetMap,
)
    ensures
        ({
            let f = draft::line_fields(raw);
            let o = draft::with_line(st, raw, root, assets);
            &&& f.len() == 0 ==> o == Ok::<DraftView, Seq<char>>(st)
            &&& f.len() > 0 && o is Ok ==> f[0] == "version"@ || f[0] == "allow-public-listen"@
                || f[0] == "listen"@ || f[0] == "endpoint"@ || f[0] == "default"@ || f[0]
                == "blocklist"@ || f[0] == "hosts"@ || f[0] == "rule"@ || f[0] == "resolver"@
        }),
{
    reveal(draft::with_fields);
}

/// Lines that are all taken make a configuration exactly where they say the version,
/// declare a listener and what becomes of the rest, route to declared endpoints alone,
/// and want what can be reached from other machines.
pub proof fn law_complete_lines_make_a_config(st: DraftView)
    ensures
        config::compiled(st) is Ok <==> {
            &&& st.version
            &&& st.listeners.len() > 0
            &&& st.default_action is Some
            &&& forall|k: int|
                0 <= k < st.listeners.len() ==> st.allow_public == Some(true) || (
                #[trigger] st.listeners[k]).address.ip.spec_is_loopback()
            &&& forall|k: int|
                0 <= k < st.references.len() ==> draft::has_endpoint(
                    st.endpoints,
                    #[trigger] st.references[k],
                )
        },
{
    lemma_first_undefined(st.references, st.endpoints);
    if config::has_public_listener(st.listeners) {
        let k = choose|k: int|
            0 <= k < st.listeners.len() && !(
            #[trigger] st.listeners[k]).address.ip.spec_is_loopback();
        assert(!st.listeners[k].address.ip.spec_is_loopback());
    }
}

proof fn lemma_first_undefined(references: Seq<Seq<char>>, endpoints: Seq<EndpointModel>)
    ensures
        config::first_undefined(references, endpoints) is None <==> forall|k: int|
            0 <= k < references.len() ==> draft::has_endpoint(endpoints, #[trigger] references[k]),
    decreases references.len(),
{
    if references.len() > 0 {
        let rest = references.drop_first();
        lemma_first_undefined(rest, endpoints);
        if config::first_undefined(references, endpoints) is None {
            assert forall|k: int| 0 <= k < references.len() implies draft::has_endpoint(
                endpoints,
                #[trigger] references[k],
            ) by {
                if k > 0 {
                    assert(rest[k - 1] == references[k]);
                }
            }
        } else if forall|k: int|
            0 <= k < references.len() ==> draft::has_endpoint(endpoints, #[trigger] references[k]) {
            assert(draft::has_endpoint(endpoints, references[0]));
            assert forall|k: int| 0 <= k < rest.len() implies draft::has_endpoint(
                endpoints,
                #[trigger] rest[k],
            ) by {
                assert(rest[k] == references[k + 1]);
            }
        }
    }
}

/// An error that names a line names the first line that is not taken; one that names
/// none is about the configuration as a whole.
pub proof fn law_error_names_the_first_refused_line(
    lines: Seq<Seq<char>>,
    root: Seq<char>,
    assets: AssetMap,
)
    ensures
        config::read_lines(lines, root, assets) matches Err(e) ==> (e.line matches Some(n) && {
            &&& 1 <= n <= lines.len()
            &&& config::read_lines(lines.take(n - 1), root, assets) matches Ok(st)
                && draft::with_line(st, lines[n - 1], root, assets) == Err::<DraftView, Seq<char>>(
                e.message,
            )
        }),
    decreases lines.len(),
{
    if lines.len() > 0 {
        let front = lines.drop_last();
        law_error_names_the_first_refused_line(front, root, assets);
        if let Err(e) = config::read_lines(lines, root, assets) {
            if let Err(f) = config::read_lines(front, root, assets) {
                let n = f.line->Some_0;
                assert(front.take(n - 1) =~= lines.take(n - 1));
                assert(front[n - 1] == lines[n - 1]);
            } else {
                assert(lines.take(lines.len() - 1) =~= front);
            }
        }
    }
}

/// What is told of a block list: where it was found, and how many of its lines say what.
pub open spec fn is_list_summary(
    b: BlocklistSummaryView,
    f: Fields,
    root: Seq<char>,
    assets: AssetMap,
) -> bool {
    &&& f.len() == 2
    &&& b.path == asset::asset_path(root, f[1])
    &&& exists|source: Seq<char>| #[trigger]
        is_file(assets, b.path, source) && (blocklist::blocklist(source) matches Ok(list) && {
            &&& b.source_lines == text::lines(source).len()
            &&& b.accepted_allow == list.allowed_suffix.len()
            &&& b.ignored == list.ignored
            &&& b.accepted_block + b.accepted_allow + b.ignored == b.source_lines
        })
}

/// What is told of a hosts file: where it was found, and how many names it lists.
pub open spec fn is_hosts_summary(
    h: HostsSummaryView,
    f: Fields,
    root: Seq<char>,
    assets: AssetMap,
) -> bool {
    &&& f.len() == 2
    &&& h.path == asset::asset_path(root, f[1])
    &&& exists|source: Seq<char>| #[trigger]
        is_file(assets, h.path, source) && (hosts::hosts(source) matches Ok(v) && h.records
            == v.table.len())
}

spec fn tells(
    st: DraftView,
    lists: Seq<Fields>,
    files: Seq<Fields>,
    root: Seq<char>,
    assets: AssetMap,
) -> bool {
    &&& st.blocklists.len() == lists.len()
    &&& st.hosts.len() == files.len()
    &&& forall|k: int|
        0 <= k < lists.len() ==> is_list_summary(
            #[trigger] st.blocklists[k],
            lists[k],
            root,
            assets,
        )
    &&& forall|k: int|
        0 <= k < files.len() ==> is_hosts_summary(#[trigger] st.hosts[k], files[k], root, assets)
}

/// Every step of a connection may take ten seconds.
pub open spec fn is_timed(t: TransportView) -> bool {
    match t {
        TransportView::Tcp(t) => t.connect_timeout.nanos == 10_000_000_000
            && t.handshake_timeout.nanos == 10_000_000_000,
        TransportView::Tls(t) => t.connect_timeout.nanos == 10_000_000_000
            && t.handshake_timeout.nanos == 10_000_000_000,
    }
}

spec fn timed(st: DraftView) -> bool {
    &&& forall|k: int| 0 <= k < st.endpoints.len() ==> is_timed((#[trigger] st.endpoints[k]).transport)
    &&& forall|k: int|
        0 <= k < st.resolvers.len() ==> ((#[trigger] st.resolvers[k]) matches ResolverView::Dot(t)
            ==> is_timed(TransportView::Tls(t)))
}

proof fn lemma_list_told(
    st: DraftView,
    f: Fields,
    lists: Seq<Fields>,
    files: Seq<Fields>,
    root: Seq<char>,
    assets: AssetMap,
)
    requires
        tells(st, lists, files, root, assets),
    ensures
        draft::blocklist_line(st, f, root, assets) matches Ok(v) ==> tells(
            v,
            lists.push(f),
            files,
            root,
            assets,
        ) && v.endpoints == st.endpoints && v.resolvers == st.resolvers,
{
    reveal(draft::blocklist_line);
    if let Ok(v) = draft::blocklist_line(st, f, root, assets) {
        let path = asset::asset_path(root, f[1]);
        let source = asset::loaded(
            assets,
            path,
            blocklist::MAX_BLOCKLIST_BYTES as nat,
            "blocklist"@,
        )->Ok_0;
        blocklist::law_entries_are_normalized(text::lines(source));
        assert(is_file(assets, path, source));
        let b = v.blocklists[lists.len() as int];
        assert(is_list_summary(b, f, root, assets));
        assert forall|k: int| 0 <= k < lists.len() + 1 implies is_list_summary(
            #[trigger] v.blocklists[k],
            lists.push(f)[k],
            root,
            assets,
        ) by {
            if k < lists.len() {
                assert(v.blocklists[k] == st.blocklists[k]);
            }
        }
    }
}

proof fn lemma_file_told(
    st: DraftView,
    f: Fields,
    lists: Seq<Fields>,
    files: Seq<Fields>,
    root: Seq<char>,
    assets: AssetMap,
)
    requires
        tells(st, lists, files, root, assets),
    ensures
        draft::hosts_line(st, f, root, assets) matches Ok(v) ==> tells(
            v,
            lists,
            files.push(f),
            root,
            assets,
        ) && v.endpoints == st.endpoints && v.resolvers == st.resolvers,
{
    reveal(draft::hosts_line);
    if let Ok(v) = draft::hosts_line(st, f, root, assets) {
        let path = asset::asset_path(root, f[1]);
        let source = asset::loaded(assets, path, hosts::MAX_HOSTS_BYTES as nat, "hosts"@)->Ok_0;
        assert(is_file(assets, path, source));
        let h = v.hosts[files.len() as int];
        assert(is_hosts_summary(h, f, root, assets));
        assert forall|k: int| 0 <= k < files.len() + 1 implies is_hosts_summary(
            #[trigger] v.hosts[k],
            files.push(f)[k],
            root,
            assets,
        ) by {
            if k < files.len() {
                assert(v.hosts[k] == st.hosts[k]);
            }
        }
    }
}

proof fn lemma_endpoint_timed(st: DraftView, f: Fields)
    requires
        timed(st),
    ensures
        draft::endpoint_line(st, f) matches Ok(v) ==> timed(v) && v.blocklists == st.blocklists
            && v.hosts == st.hosts,
{
    reveal(draft::endpoint_line);
    if let Ok(v) = draft::endpoint_line(st, f) {
        assert forall|k: int| 0 <= k < v.endpoints.len() implies is_timed(
            (#[trigger] v.endpoints[k]).transport,
        ) by {
            if k < st.endpoints.len() {
                assert(v.endpoints[k] == st.endpoints[k]);
            }
        }
    }
}

proof fn lemma_resolver_timed(st: DraftView, f: Fields)
    requires
        timed(st),
    ensures
        draft::resolver_line(st, f) matches Ok(v) ==> timed(v) && v.blocklists == st.blocklists
            && v.hosts == st.hosts,
{
    reveal(draft::resolver_line);
    if let Ok(v) = draft::resolver_line(st, f) {
        assert forall|k: int| 0 <= k < v.resolvers.len() implies ((
        #[trigger] v.resolvers[k]) matches ResolverView::Dot(t) ==> is_timed(
            TransportView::Tls(t),
        )) by {
            if k < st.resolvers.len() {
                assert(v.resolvers[k] == st.resolvers[k]);
            }
        }
    }
}

proof fn lemma_others_kept(st: DraftView, f: Fields, root: Seq<char>, assets: AssetMap)
    requires
        f.len() > 0,
        f[0] != "blocklist"@,
        f[0] != "hosts"@,
        f[0] != "endpoint"@,
        f[0] != "resolver"@,
    ensures
        draft::with_fields(st, f, root, assets) matches Ok(v) ==> v.blocklists == st.blocklists
            && v.hosts == st.hosts && v.endpoints == st.endpoints && v.resolvers == st.resolvers,
{
    reveal(draft::with_fields);
    reveal(draft::version_line);
    reveal(draft::public_line);
    reveal(draft::listen_line);
    reveal(draft::default_line);
    reveal(draft::rule_line);
}

proof fn lemma_told(lines: Seq<Seq<char>>, root: Seq<char>, assets: AssetMap)
    ensures
        config::read_lines(lines, root, assets) matches Ok(st) ==> tells(
            st,
            directives(lines, "blocklist"@),
            directives(lines, "hosts"@),
            root,
            assets,
        ) && timed(st),
    decreases lines.len(),
{
    if lines.len() > 0 {
        let front = lines.drop_last();
        lemma_told(front, root, assets);
        if let Ok(st) = config::read_lines(front, root, assets) {
            let f = draft::line_fields(lines.last());
            let lists = directives(front, "blocklist"@);
            let files = directives(front, "hosts"@);
            lemma_words();
            if f.len() > 0 {
                if f[0] == "blocklist"@ {
                    reveal(draft::with_fields);
                    lemma_list_told(st, f, lists, files, root, assets);
                } else if f[0] == "hosts"@ {
                    reveal(draft::with_fields);
                    lemma_file_told(st, f, lists, files, root, assets);
                } else if f[0] == "endpoint"@ {
                    reveal(draft::with_fields);
                    lemma_endpoint_timed(st, f);
                } else if f[0] == "resolver"@ {
                    reveal(draft::with_fields);
                    lemma_resolver_timed(st, f);
                } else {
                    lemma_others_kept(st, f, root, assets);
                }
            }
        }
    }
}

/// The files that a configuration names are told of in their order, each with its path and with
/// what was found in it.
pub proof fn law_files_are_told_of(s: Seq<char>, root: Seq<char>, assets: AssetMap)
    ensures
        config::config(s, root, assets) matches Ok(c) ==> {
            let lists = directives(text::lines(s), "blocklist"@);
            let files = directives(text::lines(s), "hosts"@);
            &&& c.blocklists.len() == lists.len()
            &&& c.hosts.len() == files.len()
            &&& forall|k: int|
                0 <= k < lists.len() ==> is_list_summary(
                    #[trigger] c.blocklists[k],
                    lists[k],
                    root,
                    assets,
                )
            &&& forall|k: int|
                0 <= k < files.len() ==> is_hosts_summary(
                    #[trigger] c.hosts[k],
                    files[k],
                    root,
                    assets,
                )
        },
{
    lemma_told(text::lines(s), root, assets);
}

/// The endpoints and resolvers of a configuration have ten seconds to connect, and ten more for
/// their handshake.
pub proof fn law_configured_carriers_have_ten_seconds(
    s: Seq<char>,
    root: Seq<char>,
    assets: AssetMap,
)
    ensures
        config::config(s, root, assets) matches Ok(c) ==> {
            &&& forall|k: int|
                0 <= k < c.endpoints.len() ==> is_timed((#[trigger] c.endpoints[k]).transport)
            &&& forall|k: int|
                0 <= k < c.resolvers.len() ==> ((
                #[trigger] c.resolvers[k]) matches ResolverView::Dot(t) ==> is_timed(
                    TransportView::Tls(t),
                ))
        },
{
    lemma_told(text::lines(s), root, assets);
}

/// What follows a number sign on a line says nothing.
pub proof fn law_comments_are_left_out(raw: Seq<char>, comment: Seq<char>)
    requires
        forall|i: int| 0 <= i < raw.len() ==> #[trigger] raw[i] != '#',
    ensures
        draft::line_fields(raw + seq!['#'] + comment) == text::fields(
            text::trim(raw, Class::Space),
        ),
        draft::line_fields(raw) == text::fields(text::trim(raw, Class::Space)),
{
    let s = raw + seq!['#'] + comment;
    let k = Class::IsNot('#');
    assert forall|i: int| 0 <= i < raw.len() implies k.has(#[trigger] s[i]) by {
        assert(s[i] == raw[i]);
    }
    assert(s[raw.len() as int] == '#');
    text::lemma_leading_is(s, k, raw.len());
    text::lemma_leading_is(raw, k, raw.len());
    assert(s.take(raw.len() as int) =~= raw);
    assert(raw.take(raw.len() as int) =~= raw);
}

/// A configuration of more than a mebibyte is refused.
pub proof fn law_configuration_is_bounded(s: Seq<char>, root: Seq<char>, assets: AssetMap)
    ensures
        text::byte_len(s) > 1048576 ==> config::config(s, root, assets) is Err,
        text::byte_len(s) <= 1048576 ==> (config::config(s, root, assets) is Ok <==> (
        config::read_lines(text::lines(s), root, assets) matches Ok(st) && config::compiled(st)
            is Ok)),
{
}

} // verus!
