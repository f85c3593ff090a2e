//! The native configuration: a text of directives, compiled into a candidate that
//! replaces the active configuration only as a whole.

use crate::config::asset::{AssetKind, AssetMap, AssetReference, Assets};
use crate::config::draft::{
    BlocklistSummary, BlocklistSummaryView, Draft, DraftView, EndpointModel, HostsSummary,
    HostsSummaryView, ListenerConfig, ResolverConfig, ResolverView,
};
use crate::dns::cache;
use crate::dns::engine::{DnsEngine, DnsStats};
use crate::dns::hosts::{HostsMap, HostsTable};
use crate::dns::engine::Resolver;
use crate::net::SocketAddr;
use crate::outbound;
use crate::outbound::{OutboundRegistry, ProxyEndpointConfig, ProxyEndpointView};
use crate::plan::EndpointView;
use crate::policy;
use crate::policy::{ActionView, EngineView, PolicyEngine, PolicyTier, RuleId};
use crate::runtime::Runtime;
use crate::text;
use crate::text::Class;
use crate::time::Duration;
use crate::transport;
use crate::trojan_datagram::TrojanDatagramProvider;
use std::sync::Arc;
use vstd::prelude::*;
use vstd::string::*;

pub mod asset;
pub mod draft;
pub mod meaning;

verus! {

pub const MAX_CONFIG_BYTES: usize = 1024 * 1024;

/// Why a text is not a configuration, and in which line that shows.
#[derive(Debug, PartialEq, Eq)]
pub struct ConfigError {
    line: Option<usize>,
    message: String,
}

#[verifier::ext_equal]
pub struct ConfigErrorView {
    pub line: Option<nat>,
    pub message: Seq<char>,
}

impl View for ConfigError {
    type V = ConfigErrorView;

    closed spec fn view(&self) -> ConfigErrorView {
        ConfigErrorView {
            line: match self.line {
                Some(n) => Some(n as nat),
                None => None,
            },
            message: self.message@,
        }
    }
}

impl ConfigErrorView {
    pub open spec fn text(self) -> Seq<char> {
        match self.line {
            Some(n) => "config line "@ + text::decimal(n) + ": "@ + self.message,
            None => self.message,
        }
    }
}

pub open spec fn global_problem(message: Seq<char>) -> ConfigErrorView {
    ConfigErrorView { line: None, message }
}

impl ConfigError {
    fn global(message: &str) -> (r: ConfigError)
        ensures
            r@ == global_problem(message@),
    {
        ConfigError { line: None, message: message.to_owned() }
    }

    fn at(line: usize, message: String) -> (r: ConfigError)
        ensures
            r@ == (ConfigErrorView { line: Some(line as nat), message: message@ }),
    {
        ConfigError { line: Some(line), message }
    }

    /// The line that the error is about.
    pub fn line(&self) -> (r: Option<usize>)
        ensures
            match r {
                Some(n) => self@.line == Some(n as nat),
                None => self@.line is None,
            },
    {
        self.line
    }

    /// The message, with the line that it is about.
    pub fn text(&self) -> (r: String)
        ensures
            r@ == self@.text(),
    {
        match self.line {
            Some(n) => {
                let mut out = "config line ".to_owned();
                text::push_decimal(&mut out, n as u64);
                out.append(": ");
                out.append(self.message.as_str());
                out
            },
            None => self.message.clone(),
        }
    }
}

/// The lines taken one after the other; the first that fails ends it.
pub open spec fn read_lines(
    lines: Seq<Seq<char>>,
    root: Seq<char>,
    assets: AssetMap,
) -> Result<DraftView, ConfigErrorView>
    decreases lines.len(),
{
    if lines.len() == 0 {
        Ok(draft::empty_draft())
    } else {
        match read_lines(lines.drop_last(), root, assets) {
            Err(e) => Err(e),
            Ok(st) => match draft::with_line(st, lines.last(), root, assets) {
                Err(message) => Err(ConfigErrorView { line: Some(lines.len()), message }),
                Ok(v) => Ok(v),
            },
        }
    }
}

/// The first endpoint that is named and not declared.
pub open spec fn first_undefined(
    references: Seq<Seq<char>>,
    endpoints: Seq<EndpointModel>,
) -> Option<Seq<char>>
    decreases references.len(),
{
    if references.len() == 0 {
        None
    } else if !draft::has_endpoint(endpoints, references[0]) {
        Some(references[0])
    } else {
        first_undefined(references.drop_first(), endpoints)
    }
}

/// The chain of resolvers: what is declared and nothing else; where nothing is
/// declared, the resolver of the system.
pub open spec fn resolver_chain(declared: Seq<ResolverView>) -> Seq<ResolverView> {
    if declared.len() == 0 {
        seq![ResolverView::System]
    } else {
        declared
    }
}

/// A compiled configuration.
#[verifier::ext_equal]
pub struct ConfigView {
    pub listeners: Seq<ListenerConfig>,
    pub blocklists: Seq<BlocklistSummaryView>,
    pub hosts: Seq<HostsSummaryView>,
    pub policy: EngineView,
    pub table: HostsMap,
    pub resolvers: Seq<ResolverView>,
    pub endpoints: Seq<EndpointModel>,
}

/// Some listener can be reached from other machines.
pub open spec fn has_public_listener(listeners: Seq<ListenerConfig>) -> bool {
    exists|i: int|
        0 <= i < listeners.len() && !(#[trigger] listeners[i]).address.ip.spec_is_loopback()
}

/// What the directives make together.
pub open spec fn compiled(st: DraftView) -> Result<ConfigView, ConfigErrorView> {
    if !st.version {
        Err(global_problem("missing `version 1` directive"@))
    } else if st.listeners.len() == 0 {
        Err(global_problem("at least one listener is required"@))
    } else if st.allow_public != Some(true) && has_public_listener(st.listeners) {
        Err(
            global_problem(
                "non-loopback listeners require explicit `allow-public-listen true` because alpha inbounds have no authentication"@,
            ),
        )
    } else {
        match st.default_action {
            None => Err(global_problem("missing default action"@)),
            Some(default_action) => match first_undefined(st.references, st.endpoints) {
                Some(id) => Err(
                    global_problem("policy references undefined proxy endpoint `"@ + id + "`"@),
                ),
                None => Ok(
                    ConfigView {
                        listeners: st.listeners,
                        blocklists: st.blocklists,
                        hosts: st.hosts,
                        policy: EngineView { rules: st.rules, default_action },
                        table: st.table,
                        resolvers: resolver_chain(st.resolvers),
                        endpoints: st.endpoints,
                    },
                ),
            },
        }
    }
}

/// The configuration that a text compiles to.
pub open spec fn config(s: Seq<char>, root: Seq<char>, assets: AssetMap) -> Result<
    ConfigView,
    ConfigErrorView,
> {
    if text::byte_len(s) > MAX_CONFIG_BYTES {
        Err(global_problem("configuration exceeds 1048576 byte limit"@))
    } else {
        match read_lines(text::lines(s), root, assets) {
            Err(e) => Err(e),
            Ok(st) => compiled(st),
        }
    }
}

/// The assets that the lines refer to, in order, as far as their number is allowed.
pub open spec fn asset_references(lines: Seq<Seq<char>>, root: Seq<char>) -> Seq<
    (AssetKind, Seq<char>),
>
    decreases lines.len(),
{
    if lines.len() == 0 {
        Seq::empty()
    } else {
        let front = asset_references(lines.drop_last(), root);
        let f = draft::line_fields(lines.last());
        if f.len() == 2 && f[0] == "blocklist"@ {
            asset::with_reference(front, AssetKind::Blocklist, asset::asset_path(root, f[1]))
        } else if f.len() == 2 && f[0] == "hosts"@ {
            asset::with_reference(front, AssetKind::Hosts, asset::asset_path(root, f[1]))
        } else {
            front
        }
    }
}

/// What every draft keeps.
pub open spec fn sound(st: DraftView) -> bool {
    &&& sound_listeners(st.listeners)
    &&& sound_endpoints(st.endpoints)
    &&& sound_rules(st)
    &&& st.blocklists.len() <= asset::MAX_BLOCKLISTS
    &&& st.hosts.len() <= asset::MAX_HOSTS_FILES
    &&& sound_resolvers(st.resolvers)
}

/// Listeners have distinct addresses with a port.
pub open spec fn sound_listeners(s: Seq<ListenerConfig>) -> bool {
    &&& s.len() <= draft::MAX_LISTENERS
    &&& forall|i: int| 0 <= i < s.len() ==> (#[trigger] s[i]).address.port != 0
    &&& forall|i: int, j: int|
        #![trigger s[i], s[j]]
        0 <= i < j < s.len() ==> s[i].address != s[j].address
}

/// Endpoints have distinct names; Trojan runs over TLS and carries datagrams, and
/// nothing else does.
pub open spec fn sound_endpoints(s: Seq<EndpointModel>) -> bool {
    &&& s.len() <= draft::MAX_PROXY_ENDPOINTS
    &&& forall|i: int|
        0 <= i < s.len() ==> (#[trigger] s[i]).protocol.capabilities().requires_tls
            ==> s[i].transport is Tls
    &&& forall|i: int|
        0 <= i < s.len() ==> ((#[trigger] s[i]).datagram is Some <==> s[i].protocol is Trojan)
    &&& forall|i: int, j: int| #![trigger s[i], s[j]] 0 <= i < j < s.len() ==> s[i].id != s[j].id
}

/// The endpoint of a proxied action is among those that are named.
pub open spec fn is_referenced(action: ActionView, references: Seq<Seq<char>>) -> bool {
    action matches ActionView::Route(EndpointView::Proxy(id)) ==> references.contains(id)
}

/// Rules are numbered from one, speak for the user, and name their endpoints.
pub open spec fn sound_rules(st: DraftView) -> bool {
    &&& st.rules.len() <= draft::MAX_RULES
    &&& forall|i: int|
        0 <= i < st.rules.len() ==> (#[trigger] st.rules[i]).id == RuleId::spec_new((i + 1) as u64)
            && st.rules[i].tier == PolicyTier::UserHard && is_referenced(
            st.rules[i].action,
            st.references,
        )
    &&& st.default_action matches Some(a) ==> is_referenced(a, st.references)
}

/// No resolver is declared twice.
pub open spec fn sound_resolvers(s: Seq<ResolverView>) -> bool {
    &&& s.len() <= draft::MAX_RESOLVERS
    &&& forall|i: int, j: int|
        #![trigger s[i], s[j]]
        0 <= i < j < s.len() ==> !draft::same_resolver(s[i], s[j])
}

proof fn lemma_references(action: ActionView, references: Seq<Seq<char>>, id: Option<Seq<char>>)
    requires
        is_referenced(action, references),
    ensures
        is_referenced(action, draft::with_reference(references, id)),
{
    if let ActionView::Route(EndpointView::Proxy(name)) = action {
        if let Some(id) = id {
            let k = references.index_of(name);
            assert(references.push(id)[k] == name);
        }
    }
}

proof fn lemma_action(s: Seq<char>, references: Seq<Seq<char>>)
    ensures
        draft::action_of(s) matches Ok((action, id)) ==> is_referenced(
            action,
            draft::with_reference(references, id),
        ),
{
    if let Ok((action, Some(id))) = draft::action_of(s) {
        assert(references.push(id)[references.len() as int] == id);
    }
}

proof fn lemma_keeps_rules(st: DraftView, after: DraftView, id: Option<Seq<char>>)
    requires
        sound_rules(st),
        after.references == draft::with_reference(st.references, id),
    ensures
        forall|i: int|
            0 <= i < st.rules.len() ==> is_referenced(
                (#[trigger] st.rules[i]).action,
                after.references,
            ),
        st.default_action matches Some(a) ==> is_referenced(a, after.references),
{
    assert forall|i: int| 0 <= i < st.rules.len() implies is_referenced(
        (#[trigger] st.rules[i]).action,
        after.references,
    ) by {
        lemma_references(st.rules[i].action, st.references, id);
    }
    if let Some(a) = st.default_action {
        lemma_references(a, st.references, id);
    }
}

proof fn lemma_listen_keeps_sound(st: DraftView, f: draft::Fields)
    requires
        sound(st),
    ensures
        draft::listen_line(st, f) matches Ok(v) ==> sound(v),
{
    reveal(draft::listen_line);
    if let Ok(v) = draft::listen_line(st, f) {
        let s = st.listeners;
        let t = v.listeners;
        assert forall|i: int| 0 <= i < t.len() implies (#[trigger] t[i]).address.port != 0 by {
            if i < s.len() {
                assert(t[i] == s[i]);
            }
        }
        assert forall|i: int, j: int|
            #![trigger t[i], t[j]]
            0 <= i < j < t.len() implies t[i].address != t[j].address by {
            assert(t[i] == s[i]);
            if j < s.len() {
                assert(t[j] == s[j]);
            }
        }
    }
}

proof fn lemma_endpoint_keeps_sound(st: DraftView, f: draft::Fields)
    requires
        sound(st),
    ensures
        draft::endpoint_line(st, f) matches Ok(v) ==> sound(v),
{
    reveal(draft::endpoint_line);
    if let Ok(v) = draft::endpoint_line(st, f) {
        let s = st.endpoints;
        let t = v.endpoints;
        let e = draft::endpoint_of(f)->Ok_0;
        assert(e.id == f[1]);
        assert forall|i: int| 0 <= i < t.len() implies ((
        #[trigger] t[i]).protocol.capabilities().requires_tls ==> t[i].transport is Tls) && (
        t[i].datagram is Some <==> t[i].protocol is Trojan) by {
            if i < s.len() {
                assert(t[i] == s[i]);
            }
        }
        assert forall|i: int, j: int|
            #![trigger t[i], t[j]]
            0 <= i < j < t.len() implies t[i].id != t[j].id by {
            assert(t[i] == s[i]);
            if j < s.len() {
                assert(t[j] == s[j]);
            }
        }
    }
}

proof fn lemma_default_keeps_sound(st: DraftView, f: draft::Fields)
    requires
        sound(st),
    ensures
        draft::default_line(st, f) matches Ok(v) ==> sound(v),
{
    reveal(draft::default_line);
    if let Ok(v) = draft::default_line(st, f) {
        let (action, id) = draft::action_of(f[1])->Ok_0;
        lemma_action(f[1], st.references);
        lemma_keeps_rules(st, v, id);
    }
}

proof fn lemma_rule_keeps_sound(st: DraftView, f: draft::Fields)
    requires
        sound(st),
    ensures
        draft::rule_line(st, f) matches Ok(v) ==> sound(v),
{
    reveal(draft::rule_line);
    if let Ok(v) = draft::rule_line(st, f) {
        let (action, id) = draft::action_of(f[1])->Ok_0;
        lemma_action(f[1], st.references);
        lemma_keeps_rules(st, v, id);
        assert forall|i: int| 0 <= i < v.rules.len() implies (#[trigger] v.rules[i]).id
            == RuleId::spec_new((i + 1) as u64) && v.rules[i].tier == PolicyTier::UserHard
            && is_referenced(v.rules[i].action, v.references) by {
            if i < st.rules.len() {
                assert(v.rules[i] == st.rules[i]);
            }
        }
    }
}

proof fn lemma_asset_keeps_sound(
    st: DraftView,
    f: draft::Fields,
    root: Seq<char>,
    assets: AssetMap,
)
    requires
        sound(st),
    ensures
        draft::blocklist_line(st, f, root, assets) matches Ok(v) ==> sound(v),
        draft::hosts_line(st, f, root, assets) matches Ok(v) ==> sound(v),
{
    reveal(draft::blocklist_line);
    reveal(draft::hosts_line);
    if let Ok(v) = draft::blocklist_line(st, f, root, assets) {
        assert forall|i: int| 0 <= i < v.rules.len() implies (#[trigger] v.rules[i]).id
            == RuleId::spec_new((i + 1) as u64) && v.rules[i].tier == PolicyTier::UserHard
            && is_referenced(v.rules[i].action, v.references) by {
            if i < st.rules.len() {
                assert(v.rules[i] == st.rules[i]);
            }
        }
    }
}

proof fn lemma_resolver_keeps_sound(st: DraftView, f: draft::Fields)
    requires
        sound(st),
    ensures
        draft::resolver_line(st, f) matches Ok(v) ==> sound(v),
{
    reveal(draft::resolver_line);
    if let Ok(v) = draft::resolver_line(st, f) {
        let s = st.resolvers;
        let t = v.resolvers;
        assert forall|i: int, j: int|
            #![trigger t[i], t[j]]
            0 <= i < j < t.len() implies !draft::same_resolver(t[i], t[j]) by {
            assert(t[i] == s[i]);
            if j < s.len() {
                assert(t[j] == s[j]);
            }
        }
    }
}

proof fn lemma_flag_keeps_sound(st: DraftView, f: draft::Fields)
    requires
        sound(st),
    ensures
        draft::version_line(st, f) matches Ok(v) ==> sound(v),
        draft::public_line(st, f) matches Ok(v) ==> sound(v),
{
    reveal(draft::version_line);
    reveal(draft::public_line);
}

proof fn lemma_line_keeps_sound(
    st: DraftView,
    raw: Seq<char>,
    root: Seq<char>,
    assets: AssetMap,
)
    requires
        sound(st),
    ensures
        draft::with_line(st, raw, root, assets) matches Ok(v) ==> sound(v),
{
    reveal(draft::with_fields);
    let f = draft::line_fields(raw);
    lemma_flag_keeps_sound(st, f);
    lemma_listen_keeps_sound(st, f);
    lemma_endpoint_keeps_sound(st, f);
    lemma_default_keeps_sound(st, f);
    lemma_rule_keeps_sound(st, f);
    lemma_asset_keeps_sound(st, f, root, assets);
    lemma_resolver_keeps_sound(st, f);
}

proof fn lemma_lines_are_sound(lines: Seq<Seq<char>>, root: Seq<char>, assets: AssetMap)
    ensures
        read_lines(lines, root, assets) matches Ok(st) ==> sound(st),
    decreases lines.len(),
{
    if lines.len() > 0 {
        lemma_lines_are_sound(lines.drop_last(), root, assets);
        if let Ok(st) = read_lines(lines.drop_last(), root, assets) {
            lemma_line_keeps_sound(st, lines.last(), root, assets);
        }
    }
}

/// A registered endpoint as the configuration describes it.
pub open spec fn registered_model(e: ProxyEndpointView<TrojanDatagramProvider>) -> EndpointModel {
    EndpointModel {
        id: e.id,
        protocol: e.protocol,
        datagram: match e.datagram {
            Some(d) => Some(d@),
            None => None,
        },
        transport: e.transport,
    }
}

pub open spec fn registered_models(
    v: Seq<ProxyEndpointView<TrojanDatagramProvider>>,
) -> Seq<EndpointModel> {
    Seq::new(v.len(), |i: int| registered_model(v[i]))
}

proof fn lemma_lookup_is_listed<D>(list: Seq<ProxyEndpointView<D>>, id: Seq<char>) -> (k: int)
    requires
        outbound::lookup(list, id) is Some,
    ensures
        0 <= k < list.len(),
        list[k].id == id,
    decreases list.len(),
{
    if list[0].id == id {
        0
    } else {
        let k = lemma_lookup_is_listed(list.drop_first(), id);
        assert(list.drop_first()[k] == list[k + 1]);
        k + 1
    }
}

/// Endpoints that the directives have let through can be registered.
proof fn lemma_registrable(v: Seq<ProxyEndpointConfig<TrojanDatagramProvider>>, n: int)
    requires
        sound_endpoints(draft::endpoint_models(v)),
        0 <= n <= v.len(),
    ensures
        outbound::registry_problem(outbound::endpoint_views(v).take(n)) is None,
    decreases n,
{
    let list = outbound::endpoint_views(v).take(n);
    if n > 0 {
        lemma_registrable(v, n - 1);
        assert(list.drop_last() == outbound::endpoint_views(v).take(n - 1));
        let models = draft::endpoint_models(v);
        let e = list.last();
        assert(e == v[n - 1]@);
        assert(models[n - 1] == draft::endpoint_model(v[n - 1]));
        assert(models[n - 1].protocol == e.protocol);
        if outbound::lookup(list.drop_last(), e.id) is Some {
            let k = lemma_lookup_is_listed(list.drop_last(), e.id);
            assert(list.drop_last()[k] == v[k]@);
            assert(models[k].id == models[n - 1].id);
        }
    }
}

/// A configuration that was accepted as a whole.
pub struct CompiledConfig {
    listeners: Vec<ListenerConfig>,
    blocklists: Vec<BlocklistSummary>,
    hosts: Vec<HostsSummary>,
    runtime: Runtime,
    table: HostsTable,
    resolvers: Vec<ResolverConfig>,
    outbounds: OutboundRegistry<TrojanDatagramProvider>,
}

impl View for CompiledConfig {
    type V = ConfigView;

    closed spec fn view(&self) -> ConfigView {
        ConfigView {
            listeners: self.listeners@,
            blocklists: draft::blocklist_views(self.blocklists@),
            hosts: draft::hosts_views(self.hosts@),
            policy: self.runtime@,
            table: self.table@,
            resolvers: draft::resolver_views(self.resolvers@),
            endpoints: registered_models(self.outbounds@),
        }
    }
}

/// A resolver of the chain, for those who look at a configuration.
#[derive(Debug, PartialEq, Eq)]
pub enum DnsResolverSummary {
    System,
    Dot { address: SocketAddr, server_name: String },
}

/// The summary says what the resolver is.
pub open spec fn summarizes(s: DnsResolverSummary, r: ResolverView) -> bool {
    match (s, r) {
        (DnsResolverSummary::System, ResolverView::System) => true,
        (DnsResolverSummary::Dot { address, server_name }, ResolverView::Dot(t)) => address
            == t.address && server_name@ == t.server_name,
        _ => false,
    }
}

impl CompiledConfig {
    #[verifier::type_invariant]
    spec fn wf(self) -> bool {
        &&& self.table.wf()
        &&& self.resolvers@.len() > 0
        &&& forall|i: int|
            0 <= i < self.resolvers@.len() ==> draft::resolver_trusts_public_roots(
                #[trigger] self.resolvers@[i],
            )
        &&& forall|i: int|
            0 <= i < self.outbounds@.len() ==> draft::trusts_public_roots(
                #[trigger] self.outbounds@[i],
            )
    }

    pub fn listeners(&self) -> (r: &[ListenerConfig])
        ensures
            r@ == self@.listeners,
    {
        self.listeners.as_slice()
    }

    pub fn blocklists(&self) -> (r: &[BlocklistSummary])
        ensures
            draft::blocklist_views(r@) == self@.blocklists,
    {
        self.blocklists.as_slice()
    }

    pub fn hosts(&self) -> (r: &[HostsSummary])
        ensures
            draft::hosts_views(r@) == self@.hosts,
    {
        self.hosts.as_slice()
    }

    pub fn runtime(&self) -> (r: &Runtime)
        ensures
            r@ == self@.policy,
    {
        &self.runtime
    }

    pub fn outbounds(&self) -> (r: &OutboundRegistry<TrojanDatagramProvider>)
        ensures
            registered_models(r@) == self@.endpoints,
            forall|i: int|
                0 <= i < r@.len() ==> draft::trusts_public_roots(#[trigger] r@[i]),
    {
        proof {
            use_type_invariant(self);
        }
        &self.outbounds
    }

    /// The chain of resolvers, in the order in which they are asked.
    pub fn resolvers(&self) -> (r: &[ResolverConfig])
        ensures
            draft::resolver_views(r@) == self@.resolvers,
            r@.len() > 0,
            forall|i: int|
                0 <= i < r@.len() ==> draft::resolver_trusts_public_roots(#[trigger] r@[i]),
    {
        proof {
            use_type_invariant(self);
        }
        self.resolvers.as_slice()
    }

    /// The chain of resolvers, in the order in which they are asked.
    pub fn resolver_summaries(&self) -> (r: Vec<DnsResolverSummary>)
        ensures
            r@.len() == self@.resolvers.len(),
            forall|i: int| 0 <= i < r@.len() ==> summarizes(#[trigger] r@[i], self@.resolvers[i]),
    {
        let mut out: Vec<DnsResolverSummary> = Vec::new();
        let mut i: usize = 0;
        while i < self.resolvers.len()
            invariant
                i <= self.resolvers@.len(),
                self@.resolvers == draft::resolver_views(self.resolvers@),
                out@.len() == i,
                forall|j: int| 0 <= j < i ==> summarizes(#[trigger] out@[j], self@.resolvers[j]),
            decreases self.resolvers@.len() - i,
        {
            assert(self@.resolvers[i as int] == self.resolvers@[i as int]@);
            let summary = match &self.resolvers[i] {
                ResolverConfig::System => DnsResolverSummary::System,
                ResolverConfig::Dot(t) => DnsResolverSummary::Dot {
                    address: t.address(),
                    server_name: t.server_name().to_owned(),
                },
            };
            out.push(summary);
            i = i + 1;
        }
        out
    }

    /// A DNS engine with the hosts overrides of the configuration, over a resolver
    /// for each member of its chain.
    pub fn dns(&self, resolvers: Vec<Arc<dyn Resolver>>) -> (r: DnsEngine)
        requires
            resolvers@.len() == self@.resolvers.len(),
        ensures
            r.wf(),
            r@.hosts == self@.table,
            r@.resolvers == resolvers@,
            r@.cache.entries == Map::<Seq<char>, cache::CachedView>::empty(),
            r@.cache.capacity == 4096,
            r@.cache.max_ttl == Duration::spec_from_secs(60),
            r@.stats == (DnsStats {
                hosts_hits: 0,
                cache_hits: 0,
                cache_misses: 0,
                resolver_failures: 0,
            }),
    {
        proof {
            use_type_invariant(self);
        }
        DnsEngine::chain(self.table.clone(), resolvers)
    }
}

proof fn lemma_lines_error(
    lines: Seq<Seq<char>>,
    n: int,
    root: Seq<char>,
    assets: AssetMap,
)
    requires
        0 <= n <= lines.len(),
        read_lines(lines.take(n), root, assets) is Err,
    ensures
        read_lines(lines, root, assets) == read_lines(lines.take(n), root, assets),
    decreases lines.len(),
{
    if n < lines.len() {
        assert(lines.drop_last().take(n) == lines.take(n));
        lemma_lines_error(lines.drop_last(), n, root, assets);
    } else {
        assert(lines.take(n) == lines);
    }
}

/// Takes the lines of a text one after the other.
fn read_draft(source: &str, asset_root: &str, assets: &Assets) -> (r: Result<Draft, ConfigError>)
    ensures
        match r {
            Ok(d) => d.wf() && read_lines(text::lines(source@), asset_root@, assets@) == Ok::<
                DraftView,
                ConfigErrorView,
            >(d@),
            Err(e) => read_lines(text::lines(source@), asset_root@, assets@) == Err::<
                DraftView,
                ConfigErrorView,
            >(e@),
        },
{
    let chars = text::chars_of(source);
    let lines = text::lines_of(chars.as_slice());
    let ghost all = text::lines(source@);
    let mut state = Draft::new();
    let mut i: usize = 0;
    assert(all.take(0).len() == 0);
    while i < lines.len()
        invariant
            i <= lines@.len(),
            text::texts(lines@) == all,
            all == text::lines(source@),
            state.wf(),
            read_lines(all.take(i as int), asset_root@, assets@) == Ok::<
                DraftView,
                ConfigErrorView,
            >(state@),
        decreases lines@.len() - i,
    {
        proof {
            assert(all.take(i + 1).drop_last() == all.take(i as int));
            assert(all.take(i + 1).last() == lines@[i as int]@);
        }
        match state.add_line(lines[i], asset_root, assets) {
            Ok(_) => {},
            Err(message) => {
                proof {
                    lemma_lines_error(all, i + 1, asset_root@, assets@);
                }
                return Err(ConfigError::at(i + 1, message));
            },
        }
        i = i + 1;
    }
    assert(all.take(i as int) == all);
    Ok(state)
}

fn is_public(listeners: &Vec<ListenerConfig>) -> (r: bool)
    ensures
        r == has_public_listener(listeners@),
{
    let mut i: usize = 0;
    while i < listeners.len()
        invariant
            i <= listeners@.len(),
            forall|j: int|
                0 <= j < i ==> (#[trigger] listeners@[j]).address.ip.spec_is_loopback(),
        decreases listeners@.len() - i,
    {
        if !listeners[i].address.ip.is_loopback() {
            assert(!listeners@[i as int].address.ip.spec_is_loopback());
            return true;
        }
        i = i + 1;
    }
    false
}

/// The first endpoint that the draft names and does not declare.
fn find_undefined(state: &Draft) -> (r: Option<usize>)
    ensures
        match r {
            Some(i) => i < state.references@.len() && first_undefined(
                state@.references,
                state@.endpoints,
            ) == Some(state.references@[i as int]@),
            None => first_undefined(state@.references, state@.endpoints) is None,
        },
{
    let ghost refs = state@.references;
    proof {
        state.lemma_references();
    }
    let mut i: usize = 0;
    assert(refs.skip(0) == refs);
    while i < state.references.len()
        invariant
            i <= state.references@.len(),
            refs == state@.references,
            refs == draft::id_views(state.references@),
            first_undefined(refs, state@.endpoints) == first_undefined(
                refs.skip(i as int),
                state@.endpoints,
            ),
        decreases state.references@.len() - i,
    {
        let id = &state.references[i];
        assert(refs.skip(i as int)[0] == id@);
        assert(refs.skip(i as int).drop_first() == refs.skip(i + 1));
        if !state.declares(id.as_str()) {
            return Some(i);
        }
        i = i + 1;
    }
    None
}

/// Makes a configuration of the directives.
fn compile(state: Draft) -> (r: Result<CompiledConfig, ConfigError>)
    requires
        state.wf(),
        sound(state@),
    ensures
        match r {
            Ok(c) => compiled(state@) == Ok::<ConfigView, ConfigErrorView>(c@),
            Err(e) => compiled(state@) == Err::<ConfigView, ConfigErrorView>(e@),
        },
{
    proof {
        state.lemma_fields();
    }
    if !state.version {
        return Err(ConfigError::global("missing `version 1` directive"));
    }
    if state.listeners.len() == 0 {
        return Err(ConfigError::global("at least one listener is required"));
    }
    let allowed = match state.allow_public {
        Some(allowed) => allowed,
        None => false,
    };
    if !allowed && is_public(&state.listeners) {
        return Err(
            ConfigError::global(
                "non-loopback listeners require explicit `allow-public-listen true` because alpha inbounds have no authentication",
            ),
        );
    }
    if state.default_action.is_none() {
        return Err(ConfigError::global("missing default action"));
    }
    match find_undefined(&state) {
        Some(i) => {
            let message = text::join3(
                "policy references undefined proxy endpoint `",
                state.references[i].as_str(),
                "`",
            );
            return Err(ConfigError { line: None, message });
        },
        None => {},
    }
    let ghost model = state@;
    let Draft {
        version: _,
        default_action,
        allow_public: _,
        listeners,
        blocklists,
        hosts,
        table,
        endpoints,
        references: _,
        rules,
        resolvers: declared,
    } = state;
    let default_action = match default_action {
        Some(action) => action,
        None => {
            return Err(ConfigError::global("missing default action"));
        },
    };
    proof {
        lemma_registrable(endpoints@, endpoints@.len() as int);
        let list = outbound::endpoint_views(endpoints@);
        assert(list.take(endpoints@.len() as int) == list);
    }
    let ghost entries = endpoints@;
    let outbounds = match OutboundRegistry::new(endpoints) {
        Ok(registry) => registry,
        Err(e) => {
            return Err(ConfigError::global(e.text()));
        },
    };
    let mut resolvers = declared;
    if resolvers.len() == 0 {
        resolvers.push(ResolverConfig::System);
        assert(draft::resolver_views(resolvers@) =~= seq![ResolverView::System]);
    }
    let r = CompiledConfig {
        listeners,
        blocklists,
        hosts,
        runtime: Runtime::new(PolicyEngine::new(rules, default_action)),
        table,
        resolvers,
        outbounds,
    };
    assert(r@.endpoints =~= model.endpoints);
    Ok(r)
}

/// Compiles a configuration whose assets lie at relative paths under a directory.
pub fn parse_config_at(source: &str, asset_root: &str, assets: &Assets) -> (r: Result<
    CompiledConfig,
    ConfigError,
>)
    ensures
        match r {
            Ok(c) => config(source@, asset_root@, assets@) == Ok::<ConfigView, ConfigErrorView>(
                c@,
            ),
            Err(e) => config(source@, asset_root@, assets@) == Err::<ConfigView, ConfigErrorView>(
                e@,
            ),
        },
{
    if text::byte_len_of(source) > MAX_CONFIG_BYTES {
        return Err(ConfigError::global("configuration exceeds 1048576 byte limit"));
    }
    match read_draft(source, asset_root, assets) {
        Err(e) => Err(e),
        Ok(state) => {
            proof {
                lemma_lines_are_sound(text::lines(source@), asset_root@, assets@);
            }
            compile(state)
        },
    }
}

/// Compiles a configuration whose assets lie under the current directory.
pub fn parse_config(source: &str, assets: &Assets) -> (r: Result<CompiledConfig, ConfigError>)
    ensures
        match r {
            Ok(c) => config(source@, "."@, assets@) == Ok::<ConfigView, ConfigErrorView>(c@),
            Err(e) => config(source@, "."@, assets@) == Err::<ConfigView, ConfigErrorView>(e@),
        },
{
    parse_config_at(source, ".", assets)
}

/// The assets that a configuration refers to, in order, as far as their number is
/// allowed.
pub fn referenced_assets(source: &str, asset_root: &str) -> (r: Vec<AssetReference>)
    ensures
        asset::reference_views(r@) == asset_references(text::lines(source@), asset_root@),
{
    let chars = text::chars_of(source);
    let lines = text::lines_of(chars.as_slice());
    let ghost all = text::lines(source@);
    let mut out: Vec<AssetReference> = Vec::new();
    let mut i: usize = 0;
    assert(all.take(0).len() == 0);
    assert(asset::reference_views(out@) =~= Seq::<(AssetKind, Seq<char>)>::empty());
    while i < lines.len()
        invariant
            i <= lines@.len(),
            text::texts(lines@) == all,
            all == text::lines(source@),
            asset::reference_views(out@) == asset_references(all.take(i as int), asset_root@),
        decreases lines@.len() - i,
    {
        proof {
            assert(all.take(i + 1).drop_last() == all.take(i as int));
            assert(all.take(i + 1).last() == lines@[i as int]@);
        }
        let f = text::fields_of(text::trim_of(text::before_of(lines[i], '#'), Class::Space));
        if f.len() == 2 {
            assert(text::texts(f@)[0] == f@[0]@ && text::texts(f@)[1] == f@[1]@);
            if text::is_text(f[0], "blocklist") {
                let path = asset::resolve_asset_path(asset_root, f[1]);
                asset::refer(&mut out, AssetKind::Blocklist, path);
            } else if text::is_text(f[0], "hosts") {
                let path = asset::resolve_asset_path(asset_root, f[1]);
                asset::refer(&mut out, AssetKind::Hosts, path);
            }
        }
        i = i + 1;
    }
    assert(all.take(i as int) == all);
    out
}

/// The active configuration after a text was offered in its place, and what was said of it.
pub open spec fn reloaded(
    active: ConfigView,
    source: Seq<char>,
    root: Seq<char>,
    assets: AssetMap,
) -> (ConfigView, Option<ConfigErrorView>) {
    match config(source, root, assets) {
        Ok(c) => (c, None),
        Err(e) => (active, Some(e)),
    }
}

/// Active configuration with candidate-then-swap semantics.
///
/// Referenced assets and named outbound endpoints are fully parsed and compiled
/// before a candidate replaces the active snapshot. A failed candidate therefore
/// leaves the Last Known Good policy, DNS settings, and outbound registry untouched.
pub struct ConfigStore {
    active: Arc<CompiledConfig>,
    asset_root: String,
}

impl ConfigStore {
    /// The active configuration.
    pub closed spec fn spec_active(&self) -> Arc<CompiledConfig> {
        self.active
    }

    /// The directory of relative asset paths.
    pub closed spec fn spec_root(&self) -> Seq<char> {
        self.asset_root@
    }

    pub fn new(source: &str, assets: &Assets) -> (r: Result<ConfigStore, ConfigError>)
        ensures
            match r {
                Ok(s) => config(source@, "."@, assets@) == Ok::<ConfigView, ConfigErrorView>(
                    s.spec_active()@,
                ) && s.spec_root() == "."@,
                Err(e) => config(source@, "."@, assets@) == Err::<ConfigView, ConfigErrorView>(e@),
            },
    {
        ConfigStore::new_at(source, ".", assets)
    }

    pub fn new_at(source: &str, asset_root: &str, assets: &Assets) -> (r: Result<
        ConfigStore,
        ConfigError,
    >)
        ensures
            match r {
                Ok(s) => config(source@, asset_root@, assets@) == Ok::<
                    ConfigView,
                    ConfigErrorView,
                >(s.spec_active()@) && s.spec_root() == asset_root@,
                Err(e) => config(source@, asset_root@, assets@) == Err::<
                    ConfigView,
                    ConfigErrorView,
                >(e@),
            },
    {
        match parse_config_at(source, asset_root, assets) {
            Ok(candidate) => Ok(
                ConfigStore { active: Arc::new(candidate), asset_root: asset_root.to_owned() },
            ),
            Err(e) => Err(e),
        }
    }

    /// Replaces the active configuration by a candidate that compiles; one that
    /// does not leaves it as it is.
    pub fn reload(&mut self, source: &str, assets: &Assets) -> (r: Result<(), ConfigError>)
        ensures
            final(self).spec_root() == old(self).spec_root(),
            (
                final(self).spec_active()@,
                match r {
                    Ok(_) => None,
                    Err(e) => Some(e@),
                },
            ) == reloaded(old(self).spec_active()@, source@, old(self).spec_root(), assets@),
            match r {
                Ok(_) => config(source@, old(self).spec_root(), assets@) == Ok::<
                    ConfigView,
                    ConfigErrorView,
                >(final(self).spec_active()@),
                Err(e) => config(source@, old(self).spec_root(), assets@) == Err::<
                    ConfigView,
                    ConfigErrorView,
                >(e@) && *final(self) == *old(self),
            },
    {
        match parse_config_at(source, self.asset_root.as_str(), assets) {
            Ok(candidate) => {
                self.active = Arc::new(candidate);
                Ok(())
            },
            Err(e) => Err(e),
        }
    }

    /// The active configuration, which later reloads do not change.
    pub fn snapshot(&self) -> (r: Arc<CompiledConfig>)
        ensures
            r == self.spec_active(),
    {
        transport::share(&self.active)
    }

    pub fn asset_root(&self) -> (r: &str)
        ensures
            r@ == self.spec_root(),
    {
        self.asset_root.as_str()
    }
}

/// An action routes to no proxy that is not declared.
pub open spec fn is_defined(action: ActionView, endpoints: Seq<EndpointModel>) -> bool {
    action matches ActionView::Route(EndpointView::Proxy(id)) ==> draft::has_endpoint(
        endpoints,
        id,
    )
}

/// The bounds and the consistency of a compiled configuration.
pub open spec fn sound_config(c: ConfigView) -> bool {
    &&& c.listeners.len() > 0
    &&& sound_listeners(c.listeners)
    &&& sound_endpoints(c.endpoints)
    &&& c.policy.rules.len() <= draft::MAX_RULES
    &&& forall|i: int|
        0 <= i < c.policy.rules.len() ==> (#[trigger] c.policy.rules[i]).id == RuleId::spec_new(
            (i + 1) as u64,
        ) && is_defined(c.policy.rules[i].action, c.endpoints)
    &&& is_defined(c.policy.default_action, c.endpoints)
    &&& c.blocklists.len() <= asset::MAX_BLOCKLISTS
    &&& c.hosts.len() <= asset::MAX_HOSTS_FILES
    &&& c.resolvers.len() > 0
    &&& sound_resolvers(c.resolvers)
}

proof fn lemma_all_defined(references: Seq<Seq<char>>, endpoints: Seq<EndpointModel>, id: Seq<char>)
    requires
        first_undefined(references, endpoints) is None,
        references.contains(id),
    ensures
        draft::has_endpoint(endpoints, id),
    decreases references.len(),
{
    if references[0] != id {
        let k = references.index_of(id);
        assert(references.drop_first()[k - 1] == id);
        lemma_all_defined(references.drop_first(), endpoints, id);
    }
}

/// A configuration that compiles is bounded and consistent: listeners are distinct
/// and have ports, endpoints are distinct and have the transport that they need,
/// rules are numbered in order, and whatever is routed to a proxy is routed to one
/// that is declared.
pub proof fn law_compiled_config_is_sound(s: Seq<char>, root: Seq<char>, assets: AssetMap)
    ensures
        config(s, root, assets) matches Ok(c) ==> sound_config(c),
{
    lemma_lines_are_sound(text::lines(s), root, assets);
    if let Ok(c) = config(s, root, assets) {
        let st = read_lines(text::lines(s), root, assets)->Ok_0;
        assert forall|i: int| 0 <= i < c.policy.rules.len() implies (
        #[trigger] c.policy.rules[i]).id == RuleId::spec_new((i + 1) as u64) && is_defined(
            c.policy.rules[i].action,
            c.endpoints,
        ) by {
            assert(is_referenced(st.rules[i].action, st.references));
            if let ActionView::Route(EndpointView::Proxy(id)) = c.policy.rules[i].action {
                lemma_all_defined(st.references, st.endpoints, id);
            }
        }
        if let ActionView::Route(EndpointView::Proxy(id)) = c.policy.default_action {
            lemma_all_defined(st.references, st.endpoints, id);
        }
    }
}

/// A directive keeps what it is not about.
pub open spec fn frames(st: DraftView, o: draft::Outcome) -> bool {
    o matches Ok(v) ==> v.allow_public == st.allow_public && v.resolvers == st.resolvers
}

proof fn lemma_frames(st: DraftView, f: draft::Fields, root: Seq<char>, assets: AssetMap)
    ensures
        frames(st, draft::version_line(st, f)),
        frames(st, draft::listen_line(st, f)),
        frames(st, draft::endpoint_line(st, f)),
        frames(st, draft::default_line(st, f)),
        frames(st, draft::blocklist_line(st, f, root, assets)),
        frames(st, draft::hosts_line(st, f, root, assets)),
        frames(st, draft::rule_line(st, f)),
        draft::public_line(st, f) matches Ok(v) ==> v.resolvers == st.resolvers,
        draft::public_line(st, f) matches Ok(v) ==> v.allow_public == Some(true) ==> f.len() == 2
            && f[1] == "true"@,
        draft::resolver_line(st, f) matches Ok(v) ==> v.allow_public == st.allow_public,
{
    assert(frames(st, draft::version_line(st, f))) by {
        reveal(draft::version_line);
    }
    assert(frames(st, draft::listen_line(st, f))) by {
        reveal(draft::listen_line);
    }
    assert(frames(st, draft::endpoint_line(st, f))) by {
        reveal(draft::endpoint_line);
    }
    assert(frames(st, draft::default_line(st, f))) by {
        reveal(draft::default_line);
    }
    assert(frames(st, draft::blocklist_line(st, f, root, assets))) by {
        reveal(draft::blocklist_line);
    }
    assert(frames(st, draft::hosts_line(st, f, root, assets))) by {
        reveal(draft::hosts_line);
    }
    assert(frames(st, draft::rule_line(st, f))) by {
        reveal(draft::rule_line);
    }
    reveal(draft::public_line);
    reveal(draft::resolver_line);
}

/// The line lets listeners be reached from other machines.
pub open spec fn is_opt_in(raw: Seq<char>) -> bool {
    draft::line_fields(raw) == seq!["allow-public-listen"@, "true"@]
}

proof fn lemma_opt_in_line(st: DraftView, raw: Seq<char>, root: Seq<char>, assets: AssetMap)
    requires
        st.allow_public != Some(true),
    ensures
        draft::with_line(st, raw, root, assets) matches Ok(v) ==> v.allow_public == Some(true)
            ==> is_opt_in(raw),
{
    reveal(draft::with_fields);
    let f = draft::line_fields(raw);
    lemma_frames(st, f, root, assets);
    if f.len() == 2 && f[0] == "allow-public-listen"@ && f[1] == "true"@ {
        assert(f =~= seq!["allow-public-listen"@, "true"@]);
    }
}

proof fn lemma_opt_in_is_written(lines: Seq<Seq<char>>, root: Seq<char>, assets: AssetMap) -> (k:
    int)
    requires
        read_lines(lines, root, assets) matches Ok(st) && st.allow_public == Some(true),
    ensures
        0 <= k < lines.len(),
        is_opt_in(lines[k]),
    decreases lines.len(),
{
    let front = lines.drop_last();
    let before = read_lines(front, root, assets)->Ok_0;
    if before.allow_public == Some(true) {
        let k = lemma_opt_in_is_written(front, root, assets);
        assert(lines[k] == front[k]);
        k
    } else {
        lemma_opt_in_line(before, lines.last(), root, assets);
        lines.len() - 1
    }
}

/// A configuration listens to other machines only where it says so.
pub proof fn law_public_listeners_are_opted_into(s: Seq<char>, root: Seq<char>, assets: AssetMap)
    ensures
        config(s, root, assets) matches Ok(c) ==> has_public_listener(c.listeners) ==> exists|
            i: int,
        | 0 <= i < text::lines(s).len() && is_opt_in(#[trigger] text::lines(s)[i]),
{
    let lines = text::lines(s);
    if let Ok(c) = config(s, root, assets) {
        if has_public_listener(c.listeners) {
            let k = lemma_opt_in_is_written(lines, root, assets);
            assert(is_opt_in(lines[k]));
        }
    }
}

/// The line declares a resolver.
pub open spec fn is_resolver_line(raw: Seq<char>) -> bool {
    draft::line_fields(raw).len() > 0 && draft::line_fields(raw)[0] == "resolver"@
}

/// The line declares the resolver of the system.
pub open spec fn is_system_line(raw: Seq<char>) -> bool {
    draft::line_fields(raw) == seq!["resolver"@, "system"@]
}

proof fn lemma_resolver_line(st: DraftView, f: draft::Fields)
    ensures
        draft::resolver_line(st, f) matches Ok(v) ==> {
            &&& v.resolvers.len() == st.resolvers.len() + 1
            &&& v.resolvers.contains(ResolverView::System) && !st.resolvers.contains(
                ResolverView::System,
            ) ==> f.len() == 2 && f[1] == "system"@
        },
{
    reveal(draft::resolver_line);
    if let Ok(v) = draft::resolver_line(st, f) {
        let r = draft::resolver_of(f)->Ok_0;
        if v.resolvers.contains(ResolverView::System) && !st.resolvers.contains(
            ResolverView::System,
        ) {
            let k = v.resolvers.index_of(ResolverView::System);
            if k < st.resolvers.len() {
                assert(st.resolvers[k] == ResolverView::System);
            }
        }
    }
}

/// The word of a resolver directive is no other directive's.
proof fn lemma_resolver_word()
    ensures
        "resolver"@ != "version"@,
        "resolver"@ != "allow-public-listen"@,
        "resolver"@ != "listen"@,
        "resolver"@ != "endpoint"@,
        "resolver"@ != "default"@,
        "resolver"@ != "blocklist"@,
        "resolver"@ != "hosts"@,
        "resolver"@ != "rule"@,
{
    reveal_strlit("resolver");
    reveal_strlit("version");
    reveal_strlit("allow-public-listen");
    reveal_strlit("listen");
    reveal_strlit("endpoint");
    reveal_strlit("default");
    reveal_strlit("blocklist");
    reveal_strlit("hosts");
    reveal_strlit("rule");
    assert("resolver"@[0] == 'r' && "endpoint"@[0] == 'e');
    assert("resolver"@.len() == 8);
}

proof fn lemma_resolver_lines(st: DraftView, raw: Seq<char>, root: Seq<char>, assets: AssetMap)
    ensures
        draft::with_line(st, raw, root, assets) matches Ok(v) ==> {
            &&& is_resolver_line(raw) ==> v.resolvers.len() == st.resolvers.len() + 1
            &&& !is_resolver_line(raw) ==> v.resolvers == st.resolvers
            &&& v.resolvers.contains(ResolverView::System) && !st.resolvers.contains(
                ResolverView::System,
            ) ==> is_system_line(raw)
        },
{
    reveal(draft::with_fields);
    let f = draft::line_fields(raw);
    lemma_resolver_word();
    lemma_frames(st, f, root, assets);
    lemma_resolver_line(st, f);
    if f.len() == 2 && f[0] == "resolver"@ && f[1] == "system"@ {
        assert(f =~= seq!["resolver"@, "system"@]);
    }
}

proof fn lemma_no_resolver_lines(lines: Seq<Seq<char>>, root: Seq<char>, assets: AssetMap)
    requires
        read_lines(lines, root, assets) matches Ok(st) && st.resolvers.len() == 0,
    ensures
        forall|i: int| 0 <= i < lines.len() ==> !is_resolver_line(#[trigger] lines[i]),
    decreases lines.len(),
{
    if lines.len() > 0 {
        let front = lines.drop_last();
        let before = read_lines(front, root, assets)->Ok_0;
        lemma_resolver_lines(before, lines.last(), root, assets);
        lemma_no_resolver_lines(front, root, assets);
        assert forall|i: int| 0 <= i < lines.len() implies !is_resolver_line(
            #[trigger] lines[i],
        ) by {
            if i < front.len() {
                assert(lines[i] == front[i]);
            }
        }
    }
}

proof fn lemma_system_is_written(lines: Seq<Seq<char>>, root: Seq<char>, assets: AssetMap) -> (k:
    int)
    requires
        read_lines(lines, root, assets) matches Ok(st) && st.resolvers.contains(
            ResolverView::System,
        ),
    ensures
        0 <= k < lines.len(),
        is_system_line(lines[k]),
    decreases lines.len(),
{
    let front = lines.drop_last();
    let before = read_lines(front, root, assets)->Ok_0;
    lemma_resolver_lines(before, lines.last(), root, assets);
    if before.resolvers.contains(ResolverView::System) {
        let k = lemma_system_is_written(front, root, assets);
        assert(lines[k] == front[k]);
        k
    } else {
        lines.len() - 1
    }
}

/// The system's resolver is asked only where the configuration declares it, or
/// declares no resolver at all: a chain of secure resolvers has no hidden
/// fallback.
pub proof fn law_system_fallback_is_explicit(s: Seq<char>, root: Seq<char>, assets: AssetMap)
    ensures
        config(s, root, assets) matches Ok(c) ==> c.resolvers.contains(ResolverView::System) ==> (
        exists|i: int| 0 <= i < text::lines(s).len() && is_system_line(#[trigger] text::lines(s)[i]))
            || (forall|i: int|
            0 <= i < text::lines(s).len() ==> !is_resolver_line(#[trigger] text::lines(s)[i])),
{
    let lines = text::lines(s);
    if let Ok(c) = config(s, root, assets) {
        let st = read_lines(lines, root, assets)->Ok_0;
        if c.resolvers.contains(ResolverView::System) {
            if st.resolvers.len() == 0 {
                lemma_no_resolver_lines(lines, root, assets);
            } else {
                let k = lemma_system_is_written(lines, root, assets);
                assert(is_system_line(lines[k]));
            }
        }
    }
}

/// Declared resolvers are asked in the order of their declaration, with nothing
/// added.
pub proof fn law_resolver_order_is_kept(s: Seq<char>, root: Seq<char>, assets: AssetMap)
    ensures
        config(s, root, assets) matches Ok(c) ==> (read_lines(
            text::lines(s),
            root,
            assets,
        ) matches Ok(st) && if st.resolvers.len() == 0 {
            c.resolvers == seq![ResolverView::System]
        } else {
            c.resolvers == st.resolvers
        }),
{
}

/// The two collections of files give the same for each of the references.
pub open spec fn all_load_alike(
    a: AssetMap,
    b: AssetMap,
    references: Seq<(AssetKind, Seq<char>)>,
) -> bool {
    forall|i: int|
        0 <= i < references.len() ==> asset::load_alike(a, b, #[trigger] references[i])
}

/// The files that a draft has taken in are those that its lines refer to.
spec fn are_counted(st: DraftView, references: Seq<(AssetKind, Seq<char>)>) -> bool {
    &&& st.blocklists.len() == asset::count_of(references, AssetKind::Blocklist)
    &&& st.hosts.len() == asset::count_of(references, AssetKind::Hosts)
}

spec fn keeps_files(st: DraftView, o: draft::Outcome) -> bool {
    o matches Ok(v) ==> v.blocklists == st.blocklists && v.hosts == st.hosts
}

proof fn lemma_keeps_files(st: DraftView, f: draft::Fields)
    ensures
        keeps_files(st, draft::version_line(st, f)),
        keeps_files(st, draft::public_line(st, f)),
        keeps_files(st, draft::listen_line(st, f)),
        keeps_files(st, draft::endpoint_line(st, f)),
        keeps_files(st, draft::default_line(st, f)),
        keeps_files(st, draft::rule_line(st, f)),
        keeps_files(st, draft::resolver_line(st, f)),
{
    assert(keeps_files(st, draft::version_line(st, f))) by {
        reveal(draft::version_line);
    }
    assert(keeps_files(st, draft::public_line(st, f))) by {
        reveal(draft::public_line);
    }
    assert(keeps_files(st, draft::listen_line(st, f))) by {
        reveal(draft::listen_line);
    }
    assert(keeps_files(st, draft::endpoint_line(st, f))) by {
        reveal(draft::endpoint_line);
    }
    assert(keeps_files(st, draft::default_line(st, f))) by {
        reveal(draft::default_line);
    }
    assert(keeps_files(st, draft::rule_line(st, f))) by {
        reveal(draft::rule_line);
    }
    reveal(draft::resolver_line);
}

proof fn lemma_file_words()
    ensures
        "blocklist"@ != "hosts"@,
        "version"@ != "blocklist"@ && "version"@ != "hosts"@,
        "allow-public-listen"@ != "blocklist"@ && "allow-public-listen"@ != "hosts"@,
        "listen"@ != "blocklist"@ && "listen"@ != "hosts"@,
        "endpoint"@ != "blocklist"@ && "endpoint"@ != "hosts"@,
        "default"@ != "blocklist"@ && "default"@ != "hosts"@,
{
    reveal_strlit("blocklist");
    reveal_strlit("hosts");
    reveal_strlit("version");
    reveal_strlit("allow-public-listen");
    reveal_strlit("listen");
    reveal_strlit("endpoint");
    reveal_strlit("default");
    assert("blocklist"@.len() == 9 && "hosts"@.len() == 5 && "version"@.len() == 7);
    assert("allow-public-listen"@.len() == 19 && "listen"@.len() == 6);
    assert("endpoint"@.len() == 8 && "default"@.len() == 7);
}

/// A blocklist is looked at only where the references list it.
proof fn lemma_blocklist_alike(
    st: DraftView,
    f: draft::Fields,
    root: Seq<char>,
    a: AssetMap,
    b: AssetMap,
    references: Seq<(AssetKind, Seq<char>)>,
)
    requires
        are_counted(st, references),
        f.len() == 2 ==> all_load_alike(
            a,
            b,
            asset::with_reference(references, AssetKind::Blocklist, asset::asset_path(root, f[1])),
        ),
    ensures
        draft::blocklist_line(st, f, root, a) == draft::blocklist_line(st, f, root, b),
        draft::blocklist_line(st, f, root, a) matches Ok(v) ==> f.len() == 2 && are_counted(
            v,
            asset::with_reference(references, AssetKind::Blocklist, asset::asset_path(root, f[1])),
        ),
{
    reveal(draft::blocklist_line);
    if f.len() == 2 && st.blocklists.len() < asset::MAX_BLOCKLISTS {
        let item = (AssetKind::Blocklist, asset::asset_path(root, f[1]));
        let more = references.push(item);
        assert(more.drop_last() =~= references);
        assert(asset::load_alike(a, b, more[references.len() as int]));
    }
}

/// A hosts file is looked at only where the references list it.
proof fn lemma_hosts_alike(
    st: DraftView,
    f: draft::Fields,
    root: Seq<char>,
    a: AssetMap,
    b: AssetMap,
    references: Seq<(AssetKind, Seq<char>)>,
)
    requires
        are_counted(st, references),
        f.len() == 2 ==> all_load_alike(
            a,
            b,
            asset::with_reference(references, AssetKind::Hosts, asset::asset_path(root, f[1])),
        ),
    ensures
        draft::hosts_line(st, f, root, a) == draft::hosts_line(st, f, root, b),
        draft::hosts_line(st, f, root, a) matches Ok(v) ==> f.len() == 2 && are_counted(
            v,
            asset::with_reference(references, AssetKind::Hosts, asset::asset_path(root, f[1])),
        ),
{
    reveal(draft::hosts_line);
    if f.len() == 2 && st.hosts.len() < asset::MAX_HOSTS_FILES {
        let item = (AssetKind::Hosts, asset::asset_path(root, f[1]));
        let more = references.push(item);
        assert(more.drop_last() =~= references);
        assert(asset::load_alike(a, b, more[references.len() as int]));
    }
}

proof fn lemma_lines_alike(lines: Seq<Seq<char>>, root: Seq<char>, a: AssetMap, b: AssetMap)
    requires
        all_load_alike(a, b, asset_references(lines, root)),
    ensures
        read_lines(lines, root, a) == read_lines(lines, root, b),
        read_lines(lines, root, a) matches Ok(st) ==> are_counted(
            st,
            asset_references(lines, root),
        ),
    decreases lines.len(),
{
    if lines.len() > 0 {
        let front = lines.drop_last();
        let before = asset_references(front, root);
        let after = asset_references(lines, root);
        assert forall|i: int| 0 <= i < before.len() implies asset::load_alike(
            a,
            b,
            #[trigger] before[i],
        ) by {
            assert(after[i] == before[i]);
        }
        lemma_lines_alike(front, root, a, b);
        if let Ok(st) = read_lines(front, root, a) {
            let f = draft::line_fields(lines.last());
            lemma_file_words();
            lemma_keeps_files(st, f);
            reveal(draft::with_fields);
            if f.len() > 0 && f[0] == "blocklist"@ {
                lemma_blocklist_alike(st, f, root, a, b, before);
            } else if f.len() > 0 && f[0] == "hosts"@ {
                lemma_hosts_alike(st, f, root, a, b, before);
            }
        }
    }
}

/// Only the files that a text refers to matter for what it compiles to, and of a file
/// that is too large only its size.
pub proof fn law_only_referenced_assets_matter(
    s: Seq<char>,
    root: Seq<char>,
    a: AssetMap,
    b: AssetMap,
)
    requires
        all_load_alike(a, b, asset_references(text::lines(s), root)),
    ensures
        config(s, root, a) == config(s, root, b),
{
    lemma_lines_alike(text::lines(s), root, a, b);
}

/// A text that is refused leaves the active configuration as it was; one that is accepted takes
/// its place. It is refused exactly when it would be refused at the start.
pub proof fn law_refused_text_changes_nothing(
    active: ConfigView,
    source: Seq<char>,
    root: Seq<char>,
    assets: AssetMap,
)
    ensures
        ({
            let (after, problem) = reloaded(active, source, root, assets);
            &&& problem is None <==> config(source, root, assets) is Ok
            &&& problem is Some ==> after == active
            &&& problem matches Some(e) ==> config(source, root, assets) == Err::<
                ConfigView,
                ConfigErrorView,
            >(e)
            &&& problem is None ==> config(source, root, assets) == Ok::<
                ConfigView,
                ConfigErrorView,
            >(after)
        }),
{
}

} // verus!
