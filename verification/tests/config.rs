use std::sync::Arc;

use commeatus::config::asset::{
    Asset, AssetKind, AssetReference, Assets, MAX_BLOCKLISTS, MAX_HOSTS_FILES,
};
use commeatus::config::{
    parse_config, parse_config_at, referenced_assets, ConfigStore, DnsResolverSummary,
    MAX_CONFIG_BYTES,
};
use commeatus::dns::engine::Resolver;
use commeatus::dns::{DnsAnswer, DnsError, DnsErrorKind, DnsQuery};
use commeatus::flow::{
    Destination, DestinationHost, FlowContext, FlowId, NetworkContext, SourceContext,
    TransportProtocol,
};
use commeatus::net::{IpAddr, SocketAddr};
use commeatus::plan::{Endpoint, EndpointId, ExecutionAction};
use commeatus::time::Instant;

const VALID: &str = r#"
        version 1
        listen socks5 127.0.0.1:1080
        default direct
        rule reject domain-suffix ads.example
        rule reject cidr 10.0.0.0/8
    "#;

fn none() -> Assets {
    Assets::new()
}

fn file(path: &str, text: &str) -> Assets {
    let mut assets = Assets::new();
    assets.add(
        path.to_owned(),
        Asset::File {
            size: text.len() as u64,
            text: Ok(text.to_owned()),
        },
    );
    assets
}

fn plan(store: &ConfigStore, host: DestinationHost) -> ExecutionAction {
    let snapshot = store.snapshot();
    snapshot
        .runtime()
        .plan(&FlowContext::new(
            FlowId::new(1),
            SourceContext::default(),
            Destination { host, port: 443 },
            TransportProtocol::Tcp,
            NetworkContext::default(),
        ))
        .action
}

fn failure(source: &str) -> (Option<usize>, String) {
    let error = parse_config(source, &none()).err().unwrap();
    (error.line(), error.text())
}

#[test]
fn native_config_compiles_into_policy_runtime() {
    let store = ConfigStore::new(VALID, &none()).unwrap();
    assert!(matches!(
        plan(
            &store,
            DestinationHost::Domain("cdn.ads.example".to_owned())
        ),
        ExecutionAction::Reject { .. }
    ));
    assert!(matches!(
        plan(
            &store,
            DestinationHost::Domain("www.example.com".to_owned())
        ),
        ExecutionAction::Route { .. }
    ));
    assert!(matches!(
        plan(&store, DestinationHost::Ip("10.20.30.40".parse().unwrap())),
        ExecutionAction::Reject { .. }
    ));
}

#[test]
fn named_proxy_endpoint_compiles_into_policy_and_registry() {
    let config = r#"
            version 1
            listen socks5 127.0.0.1:1080
            endpoint edge socks5 127.0.0.1:1081
            rule proxy:edge domain-suffix proxied.example
            default direct
        "#;
    let store = ConfigStore::new(config, &none()).unwrap();
    let snapshot = store.snapshot();
    assert_eq!(snapshot.outbounds().len(), 1);
    assert!(matches!(
        plan(
            &store,
            DestinationHost::Domain("api.proxied.example".to_owned())
        ),
        ExecutionAction::Route {
            endpoint: Endpoint::Proxy(ref id)
        } if id.as_str() == "edge"
    ));
}

#[test]
fn undefined_proxy_endpoint_rejects_candidate() {
    let config = r#"
            version 1
            listen socks5 127.0.0.1:1080
            rule proxy:missing any
            default direct
        "#;
    assert!(parse_config(config, &none()).is_err());
}

#[test]
fn duplicate_proxy_endpoint_id_is_rejected() {
    let config = r#"
            version 1
            listen socks5 127.0.0.1:1080
            endpoint edge socks5 127.0.0.1:1081
            endpoint edge http 127.0.0.1:8081
            default direct
        "#;
    assert!(parse_config(config, &none()).is_err());
}

#[test]
fn blocklist_is_compiled_relative_to_config_directory() {
    let assets = file(
        "/etc/commeatus/ads.txt",
        "0.0.0.0 ads.example\n||telemetry.example^\n@@||api.telemetry.example^\n",
    );
    let config = r#"
            version 1
            listen socks5 127.0.0.1:1080
            blocklist ads.txt
            default direct
        "#;
    assert_eq!(
        referenced_assets(config, "/etc/commeatus"),
        vec![AssetReference {
            kind: AssetKind::Blocklist,
            path: "/etc/commeatus/ads.txt".to_owned(),
        }]
    );
    let store = ConfigStore::new_at(config, "/etc/commeatus", &assets).unwrap();
    let snapshot = store.snapshot();
    assert_eq!(snapshot.blocklists().len(), 1);
    assert_eq!(snapshot.blocklists()[0].stats.accepted_block, 2);
    assert!(matches!(
        plan(
            &store,
            DestinationHost::Domain("x.telemetry.example".to_owned())
        ),
        ExecutionAction::Reject { .. }
    ));
    assert!(matches!(
        plan(
            &store,
            DestinationHost::Domain("api.telemetry.example".to_owned())
        ),
        ExecutionAction::Route { .. }
    ));
}

struct NoResolver;

impl Resolver for NoResolver {
    fn resolve(&self, _query: &DnsQuery) -> Result<DnsAnswer, DnsError> {
        Err(DnsError::new(DnsErrorKind::ResolverFailure, "offline"))
    }
}

#[test]
fn hosts_override_is_compiled_into_dns_engine() {
    let assets = file("/etc/commeatus/hosts.txt", "203.0.113.7 service.test\n");
    let config = r#"
            version 1
            listen socks5 127.0.0.1:1080
            hosts hosts.txt
            default direct
        "#;
    let store = ConfigStore::new_at(config, "/etc/commeatus", &assets).unwrap();
    let snapshot = store.snapshot();
    assert_eq!(snapshot.hosts().len(), 1);
    let mut dns = snapshot.dns(vec![Arc::new(NoResolver)]);
    assert_eq!(
        dns.resolve("service.test", Instant { nanos: 0 }).unwrap(),
        vec!["203.0.113.7".parse::<IpAddr>().unwrap()]
    );
}

#[test]
fn missing_asset_fails_candidate_before_runtime_swap() {
    let mut store = ConfigStore::new_at(VALID, "/etc/commeatus", &none()).unwrap();
    let before = store.snapshot();
    let candidate = r#"
            version 1
            listen socks5 127.0.0.1:1080
            hosts missing.txt
            default direct
        "#;
    let mut assets = Assets::new();
    assets.add(
        "/etc/commeatus/missing.txt".to_owned(),
        Asset::Missing("No such file or directory (os error 2)".to_owned()),
    );
    assert!(store.reload(candidate, &assets).is_err());
    let after = store.snapshot();
    assert!(Arc::ptr_eq(&before, &after));
}

#[test]
fn invalid_reload_keeps_last_known_good_snapshot() {
    let mut store = ConfigStore::new(VALID, &none()).unwrap();
    let before = store.snapshot();
    assert!(store.reload("version 2", &none()).is_err());
    let after = store.snapshot();
    assert!(Arc::ptr_eq(&before, &after));
}

#[test]
fn valid_reload_replaces_the_snapshot() {
    let mut store = ConfigStore::new(VALID, &none()).unwrap();
    let before = store.snapshot();
    let candidate = "version 1\nlisten http 127.0.0.1:8080\ndefault reject\n";
    store.reload(candidate, &none()).unwrap();
    let after = store.snapshot();
    assert!(!Arc::ptr_eq(&before, &after));
    assert_eq!(after.listeners().len(), 1);
    assert_eq!(after.listeners()[0].address, "127.0.0.1:8080".parse::<SocketAddr>().unwrap());
    assert!(matches!(
        plan(&store, DestinationHost::Domain("any.example".to_owned())),
        ExecutionAction::Reject { .. }
    ));
}

#[test]
fn duplicate_bind_address_is_rejected() {
    let config = r#"
            version 1
            listen socks5 127.0.0.1:1080
            listen http 127.0.0.1:1080
            default direct
        "#;
    assert!(parse_config(config, &none()).is_err());
}

#[test]
fn public_listener_requires_explicit_opt_in() {
    let unsafe_default = r#"
            version 1
            listen socks5 0.0.0.0:1080
            default direct
        "#;
    assert!(parse_config(unsafe_default, &none()).is_err());

    let explicit = r#"
            version 1
            allow-public-listen true
            listen socks5 0.0.0.0:1080
            default direct
        "#;
    assert!(parse_config(explicit, &none()).is_ok());
}

#[test]
fn transport_matcher_is_available_to_native_config() {
    let config = r#"
            version 1
            listen socks5 127.0.0.1:1080
            rule reject transport udp
            default direct
        "#;
    assert!(parse_config(config, &none()).is_ok());
}

#[test]
fn explicit_tcp_and_tls_endpoint_syntax_compile() {
    let config = r#"
            version 1
            listen socks5 127.0.0.1:1080
            endpoint plain socks5 tcp 127.0.0.1:1081
            endpoint secure http tls 127.0.0.1:8443 proxy.example
            rule proxy:secure domain-suffix secure.example
            default proxy:plain
        "#;
    let compiled = parse_config(config, &none()).unwrap();
    assert_eq!(compiled.outbounds().len(), 2);
    let secure = Endpoint::Proxy(EndpointId::new("secure").unwrap());
    let capabilities = compiled.outbounds().capabilities(&secure).unwrap();
    assert!(capabilities.supports_tcp());
    assert!(!capabilities.supports_udp());
    assert!(capabilities.encrypted_transport());
}

#[test]
fn invalid_tls_server_name_rejects_candidate() {
    let config = r#"
            version 1
            listen socks5 127.0.0.1:1080
            endpoint secure socks5 tls 127.0.0.1:8443 bad_name!
            default proxy:secure
        "#;
    assert!(parse_config(config, &none()).is_err());
}

#[test]
fn trojan_tls_endpoint_compiles_with_stream_and_datagram_capability() {
    let config = r#"
            version 1
            listen socks5 127.0.0.1:1080
            endpoint secure trojan tls 127.0.0.1:443 trojan.example secret
            default proxy:secure
        "#;
    let compiled = parse_config(config, &none()).unwrap();
    assert_eq!(compiled.outbounds().len(), 1);
    let endpoint = Endpoint::Proxy(EndpointId::new("secure").unwrap());
    let capabilities = compiled.outbounds().capabilities(&endpoint).unwrap();
    assert!(capabilities.supports_tcp());
    assert!(capabilities.supports_udp());
    assert!(capabilities.encrypted_transport());
}

#[test]
fn trojan_plain_tcp_is_rejected_by_candidate_parser() {
    let config = r#"
            version 1
            listen socks5 127.0.0.1:1080
            endpoint insecure trojan tcp 127.0.0.1:443 secret
            default proxy:insecure
        "#;
    assert!(parse_config(config, &none()).is_err());
}

#[test]
fn config_size_is_bounded() {
    let oversized = "x".repeat(MAX_CONFIG_BYTES + 1);
    assert!(parse_config(&oversized, &none()).is_err());
}

#[test]
fn the_resolver_chain_keeps_its_order() {
    let config = r#"
            version 1
            listen socks5 127.0.0.1:1080
            resolver dot 192.0.2.53:853 dns.example
            resolver system
            default direct
        "#;
    let compiled = parse_config(config, &none()).unwrap();
    let summaries = compiled.resolver_summaries();
    assert_eq!(summaries.len(), 2);
    match &summaries[0] {
        DnsResolverSummary::Dot {
            address,
            server_name,
        } => {
            assert_eq!(*address, "192.0.2.53:853".parse::<SocketAddr>().unwrap());
            assert_eq!(server_name, "dns.example");
        }
        _ => panic!("the order was lost"),
    }
    assert!(matches!(summaries[1], DnsResolverSummary::System));
    let implicit = parse_config(VALID, &none()).unwrap();
    assert_eq!(implicit.resolvers().len(), 1);
    assert!(matches!(
        implicit.resolver_summaries()[0],
        DnsResolverSummary::System
    ));
}

#[test]
fn resolver_chains_are_explicit_and_bounded() {
    let chain = |lines: &str| {
        let source = format!("version 1\nlisten socks5 127.0.0.1:1080\n{lines}default direct\n");
        parse_config(&source, &none())
    };
    let secure = chain("resolver dot 1.1.1.1:853 cloudflare-dns.com\n").unwrap();
    let summaries = secure.resolver_summaries();
    assert_eq!(summaries.len(), 1);
    assert!(matches!(summaries[0], DnsResolverSummary::Dot { .. }));
    assert!(chain("resolver system\nresolver system\n").is_err());
    let twice = "resolver dot 1.1.1.1:853 a.example\nresolver dot 1.1.1.1:853 a.example\n";
    assert!(chain(twice).is_err());
    assert!(chain("resolver dot dns.example:853 dns.example\n").is_err());
    assert!(chain("resolver dot 1.1.1.1:0 dns.example\n").is_err());
    let many = |count: usize| {
        let mut lines = String::new();
        for i in 1..=count {
            lines.push_str(&format!("resolver dot 1.1.1.{i}:853 dns.example\n"));
        }
        lines
    };
    assert!(chain(&many(8)).is_ok());
    assert!(chain(&many(9)).is_err());

    let mut store = ConfigStore::new(VALID, &none()).unwrap();
    let before = store.snapshot();
    let candidate = "version 1\nlisten socks5 127.0.0.1:1080\nresolver dot 1.1.1.1:853 bad!name\ndefault direct\n";
    assert!(store.reload(candidate, &none()).is_err());
    assert!(Arc::ptr_eq(&before, &store.snapshot()));
}

#[test]
fn failures_name_their_line() {
    let (line, text) = failure("version 2\n");
    assert_eq!(line, Some(1));
    assert!(text.starts_with("config line 1: "), "{text}");
    assert_eq!(failure("").0, None);
    assert_eq!(failure("version 1\nlisten socks5 nowhere\ndefault direct\n").0, Some(2));
    assert_eq!(failure("version 1\nunknown\n").0, Some(2));
    assert_eq!(failure("version 1\ndefault direct\ndefault direct\n").0, Some(3));
    assert_eq!(failure("version 1\nlisten socks5 127.0.0.1:1\n").0, None);
    assert_eq!(failure("version 1\ndefault direct\n").0, None);
    assert_eq!(
        failure("version 1\nlisten socks5 127.0.0.1:1\nrule reject port x\ndefault direct\n").0,
        Some(3)
    );
    assert_eq!(failure("version 1\nresolver dot 1.1.1.1:853 bad!name\n").0, Some(2));
}

#[test]
fn bad_assets_reject_the_candidate() {
    let config = "version 1\nlisten socks5 127.0.0.1:1080\nhosts hosts.txt\ndefault direct\n";
    assert!(parse_config_at(config, "root", &none()).is_err());
    let assets = file("root/hosts.txt", "127.0.0.1 bad..name\n");
    let error = parse_config_at(config, "root", &assets).err().unwrap();
    assert_eq!(error.line(), Some(3));
    let mut large = Assets::new();
    large.add(
        "root/hosts.txt".to_owned(),
        Asset::File {
            size: u64::MAX,
            text: Ok(String::new()),
        },
    );
    assert!(parse_config_at(config, "root", &large).is_err());
    let escaping = "version 1\nlisten socks5 127.0.0.1:1080\nhosts ../x\ndefault direct\n";
    assert_eq!(
        parse_config_at(escaping, "root", &none()).err().unwrap().line(),
        Some(3)
    );
}

#[test]
fn only_files_that_may_count_are_referred_to() {
    let mut text = "version 1\nhosts /a # the first\nblocklist x y\n".to_owned();
    for i in 0..20 {
        text.push_str(&format!("blocklist /list{i}\nhosts /hosts{i}\n"));
    }
    let references = referenced_assets(&text, "/etc");
    let of = |kind| references.iter().filter(|r| r.kind == kind).count();
    assert_eq!(of(AssetKind::Blocklist), MAX_BLOCKLISTS);
    assert_eq!(of(AssetKind::Hosts), MAX_HOSTS_FILES);
    assert_eq!(references[0].path, "/a");
    assert_eq!(references[1].path, "/list0");
    assert!(references[0].admits(4 * 1024 * 1024));
    assert!(!references[0].admits(4 * 1024 * 1024 + 1));
    assert!(references[1].admits(8 * 1024 * 1024));
    assert!(!references[1].admits(8 * 1024 * 1024 + 1));
}

#[test]
fn the_text_of_a_file_that_is_too_large_does_not_matter() {
    let source = "version 1\nlisten socks5 127.0.0.1:1080\nhosts /h\ndefault direct\n";
    let with = |text: Result<String, String>| {
        let mut assets = Assets::new();
        assets.add("/h".to_owned(), Asset::File { size: 4 * 1024 * 1024 + 1, text });
        parse_config(source, &assets).err().unwrap().text()
    };
    let refusal = with(Err("not read".to_owned()));
    assert_eq!(refusal, "config line 3: hosts /h exceeds 4194304 byte limit");
    assert_eq!(with(Ok("127.0.0.1 a.example".to_owned())), refusal);
}
