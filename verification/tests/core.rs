use commeatus::blocklist::{compile_blocklist, MAX_BLOCKLIST_BYTES};
use commeatus::cidr::{CidrParseError, IpCidr};
use commeatus::domain_set::{DomainFilter, DomainSet};
use commeatus::error::ErrorKind;
use commeatus::flow::{
    Destination, DestinationHost, FlowContext, FlowId, NetworkContext, SourceContext,
    TransportProtocol,
};
use commeatus::net::{IpAddr, SocketAddr};
use commeatus::plan::{
    Endpoint, EndpointId, ExecutionAction, RejectReason, MAX_ENDPOINT_ID_LENGTH,
};
use commeatus::policy::{
    Matcher, PolicyAction, PolicyEngine, PolicyRule, PolicyTier, RuleId,
};
use commeatus::proxy::{plan_action, FlowIds, Target};
use commeatus::runtime::Runtime;

fn ip(text: &str) -> IpAddr {
    text.parse().unwrap()
}

#[test]
fn compiles_hosts_plain_and_adblock_domains() {
    let list = r#"
            # comment
            0.0.0.0 ads.example.com
            tracker.example
            ||telemetry.example^
            @@||api.telemetry.example^
        "#;
    let compiled = compile_blocklist(list).unwrap();
    assert!(compiled.filter().is_blocked("ads.example.com"));
    assert!(compiled.filter().is_blocked("tracker.example"));
    assert!(compiled.filter().is_blocked("x.telemetry.example"));
    assert!(!compiled.filter().is_blocked("api.telemetry.example"));
    assert_eq!(compiled.stats().accepted_block, 3);
    assert_eq!(compiled.stats().accepted_allow, 1);
}

#[test]
fn adblock_suffix_respects_dns_label_boundary() {
    let compiled = compile_blocklist("||example.com^\n").unwrap();
    assert!(compiled.filter().is_blocked("a.example.com"));
    assert!(!compiled.filter().is_blocked("badexample.com"));
}

#[test]
fn rejects_ambiguous_multi_hostname_hosts_line() {
    assert!(compile_blocklist("0.0.0.0 a.example b.example\n").is_err());
}

#[test]
fn byte_limit_is_enforced_before_parsing() {
    let oversized = "#".repeat(MAX_BLOCKLIST_BYTES + 1);
    assert!(compile_blocklist(&oversized).is_err());
}

#[test]
fn blocklist_errors_name_their_line() {
    let error = compile_blocklist("good.example\nbad..name\n").unwrap_err();
    assert_eq!(error.text(), "blocklist line 2: invalid domain");
}

#[test]
fn ipv4_membership_and_normalization() {
    let cidr: IpCidr = "10.42.99.7/16".parse().unwrap();
    assert!(cidr.contains(ip("10.42.0.1")));
    assert!(cidr.contains(ip("10.42.255.254")));
    assert!(!cidr.contains(ip("10.43.0.1")));
}

#[test]
fn zero_and_host_prefixes_work() {
    let any_v4: IpCidr = "0.0.0.0/0".parse().unwrap();
    assert!(any_v4.contains(ip("203.0.113.10")));

    let host_v4: IpCidr = "192.0.2.1/32".parse().unwrap();
    assert!(host_v4.contains(ip("192.0.2.1")));
    assert!(!host_v4.contains(ip("192.0.2.2")));
}

#[test]
fn ipv6_membership_works() {
    let cidr: IpCidr = "2001:db8:abcd::1/48".parse().unwrap();
    assert!(cidr.contains(ip("2001:db8:abcd::42")));
    assert!(!cidr.contains(ip("2001:db8:abce::1")));

    let host: IpCidr = "2001:db8::1/128".parse().unwrap();
    assert!(host.contains(ip("2001:db8::1")));
}

#[test]
fn address_families_do_not_cross_match() {
    let cidr: IpCidr = "0.0.0.0/0".parse().unwrap();
    assert!(!cidr.contains(ip("2001:db8::1")));
}

#[test]
fn invalid_prefixes_are_rejected() {
    assert_eq!(
        "192.0.2.1/33".parse::<IpCidr>(),
        Err(CidrParseError::PrefixOutOfRange)
    );
    assert_eq!(
        "2001:db8::1/129".parse::<IpCidr>(),
        Err(CidrParseError::PrefixOutOfRange)
    );
}

#[test]
fn each_cidr_error_has_an_input() {
    assert_eq!("10.0.0.0".parse::<IpCidr>(), Err(CidrParseError::MissingPrefix));
    assert_eq!("10.0.0/8".parse::<IpCidr>(), Err(CidrParseError::InvalidAddress));
    assert_eq!("10.0.0.0/x".parse::<IpCidr>(), Err(CidrParseError::InvalidPrefix));
    assert_eq!(CidrParseError::PrefixOutOfRange.text(), "CIDR prefix is out of range");
}

#[test]
fn addresses_are_written_as_they_are_read() {
    for text in ["127.0.0.1", "::", "::1", "2001:db8::8", "1:0:0:2::", "::ffff:1.2.3.4"] {
        assert_eq!(ip(text).text(), text);
    }
    for text in ["127.0.0.1:80", "[::1]:443", "[fe80::1%3]:53"] {
        let address: SocketAddr = text.parse().unwrap();
        assert_eq!(address.text(), text);
    }
    assert!("127.0.0.1".parse::<SocketAddr>().is_err());
    assert!("127.0.0.01".parse::<IpAddr>().is_err());
    assert!("1:2:3".parse::<IpAddr>().is_err());
}

#[test]
fn suffix_matching_uses_label_boundaries_without_allocating_per_suffix() {
    let set = DomainSet::compile(Vec::new(), vec!["example.com".to_owned()]).unwrap();
    assert!(set.matches("example.com"));
    assert!(set.matches("api.example.com"));
    assert!(!set.matches("badexample.com"));
}

#[test]
fn compile_normalizes_sorts_and_deduplicates() {
    let set = DomainSet::compile(
        vec!["EXAMPLE.COM.".to_owned(), "example.com".to_owned()],
        vec!["Ads.Example".to_owned(), "ads.example".to_owned()],
    )
    .unwrap();
    assert_eq!(set.exact_len(), 1);
    assert_eq!(set.suffix_len(), 1);
    assert!(set.matches("example.com"));
    assert!(set.matches("x.ads.example"));
}

#[test]
fn allow_exception_overrides_only_filter_not_route() {
    let blocked = DomainSet::compile(Vec::new(), vec!["example.com".to_owned()]).unwrap();
    let allowed = DomainSet::compile(Vec::new(), vec!["api.example.com".to_owned()]).unwrap();
    let filter = DomainFilter::new(blocked, allowed);
    assert_eq!((filter.blocked_len(), filter.allowed_len()), (1, 1));
    assert!(filter.is_blocked("ads.example.com"));
    assert!(!filter.is_blocked("api.example.com"));
}

#[test]
fn entries_are_counted_once_in_each_list() {
    let exact = vec!["One.example".to_owned(), ".one.example.".to_owned(), "two.example".to_owned()];
    let set = DomainSet::compile(exact, vec!["one.example".to_owned()]).unwrap();
    assert_eq!((set.exact_len(), set.suffix_len(), set.len()), (2, 1, 3));
    assert!(!set.is_empty());
    let none = DomainSet::compile(Vec::new(), Vec::new()).unwrap();
    assert_eq!(none.len(), 0);
    assert!(none.is_empty());
    assert!(!none.matches("one.example"));
}

#[test]
fn networks_with_bits_behind_the_prefix_hold_nothing() {
    let network = IpCidr::V4 { network: 0xc000_0205, prefix: 24 };
    assert!(!network.contains("192.0.2.5".parse().unwrap()));
    assert!(!network.contains("::1".parse().unwrap()));
    let network = IpCidr::V4 { network: 0xc000_0200, prefix: 24 };
    assert!(network.contains("192.0.2.5".parse().unwrap()));
}

#[test]
fn empty_and_copied_sets_answer_alike() {
    let set = DomainSet::compile(vec!["one.example".to_owned()], Vec::new()).unwrap();
    let copy = set.clone();
    assert_eq!(copy, set);
    assert!(copy.matches("one.example"));
    assert!(!copy.matches("x.one.example"));
    assert!(!DomainSet::default().matches("one.example"));
    assert!(DomainSet::default().is_empty());
    assert!(!DomainFilter::default().is_blocked("one.example"));
    let error = DomainSet::compile(vec!["-".repeat(64)], Vec::new()).unwrap_err();
    assert!(error.text().starts_with("invalid domain"));
}

#[test]
fn endpoint_id_rejects_config_like_or_unbounded_values() {
    assert!(EndpointId::new("edge-jp_01").is_ok());
    assert!(EndpointId::new("").is_err());
    assert!(EndpointId::new("socks5://127.0.0.1:1080").is_err());
    assert!(EndpointId::new(&"x".repeat(MAX_ENDPOINT_ID_LENGTH + 1)).is_err());
}

fn domain_flow(domain: &str, uid: u32) -> FlowContext {
    FlowContext::new(
        FlowId::new(1),
        SourceContext {
            uid: Some(uid),
            package: None,
        },
        Destination {
            host: DestinationHost::Domain(domain.to_owned()),
            port: 443,
        },
        TransportProtocol::Tcp,
        NetworkContext::default(),
    )
}

#[test]
fn suffix_matching_respects_label_boundaries() {
    let matcher = Matcher::DomainSuffix("example.com".to_owned());
    assert!(matcher.matches(&domain_flow("example.com", 1)));
    assert!(matcher.matches(&domain_flow("api.example.com", 1)));
    assert!(!matcher.matches(&domain_flow("badexample.com", 1)));
}

#[test]
fn hard_policy_outranks_adaptive_policy() {
    let engine = PolicyEngine::new(
        vec![
            PolicyRule {
                id: RuleId::new(1),
                tier: PolicyTier::Adaptive,
                matcher: Matcher::Any,
                action: PolicyAction::Route(Endpoint::Direct),
            },
            PolicyRule {
                id: RuleId::new(2),
                tier: PolicyTier::UserHard,
                matcher: Matcher::Uid(10042),
                action: PolicyAction::Reject(RejectReason::Policy),
            },
        ],
        PolicyAction::Route(Endpoint::Direct),
    );

    let decision = engine.decide(&domain_flow("example.com", 10042));
    assert_eq!(decision.rule_id, Some(RuleId::new(2)));
    assert_eq!(decision.tier, PolicyTier::UserHard);
    assert_eq!(decision.action, PolicyAction::Reject(RejectReason::Policy));
}

#[test]
fn ip_match_does_not_match_domain_identity() {
    let matcher = Matcher::Ip(ip("1.1.1.1"));
    assert!(!matcher.matches(&domain_flow("one.one.one.one", 1)));
}

#[test]
fn matchers_combine() {
    let flow = domain_flow("api.example.com", 7);
    let both = Matcher::All(vec![
        Matcher::Uid(7),
        Matcher::Not(Box::new(Matcher::Port(80))),
    ]);
    assert!(both.matches(&flow));
    let either = Matcher::AnyOf(vec![
        Matcher::DomainExact("API.EXAMPLE.COM".to_owned()),
        Matcher::Uid(8),
    ]);
    assert!(either.matches(&flow));
    assert!(!Matcher::AnyOf(Vec::new()).matches(&flow));
    assert!(Matcher::All(Vec::new()).matches(&flow));
}

fn flow(uid: u32) -> FlowContext {
    FlowContext::new(
        FlowId::new(7),
        SourceContext {
            uid: Some(uid),
            package: Some("org.example.app".to_owned()),
        },
        Destination {
            host: DestinationHost::Domain("example.com".to_owned()),
            port: 443,
        },
        TransportProtocol::Tcp,
        NetworkContext::default(),
    )
}

#[test]
fn default_direct_becomes_route_plan() {
    let runtime = Runtime::new(PolicyEngine::new(
        Vec::new(),
        PolicyAction::Route(Endpoint::Direct),
    ));
    let plan = runtime.plan(&flow(10001));

    assert_eq!(plan.flow_id, FlowId::new(7));
    assert_eq!(plan.matched_rule, None);
    assert_eq!(
        plan.action,
        ExecutionAction::Route {
            endpoint: Endpoint::Direct
        }
    );
}

#[test]
fn reject_remains_an_action_not_an_endpoint() {
    let runtime = Runtime::new(PolicyEngine::new(
        vec![PolicyRule {
            id: RuleId::new(9),
            tier: PolicyTier::UserHard,
            matcher: Matcher::Uid(10001),
            action: PolicyAction::Reject(RejectReason::Policy),
        }],
        PolicyAction::Route(Endpoint::Direct),
    ));
    let plan = runtime.plan(&flow(10001));

    assert_eq!(plan.matched_rule, Some(RuleId::new(9)));
    assert_eq!(
        plan.action,
        ExecutionAction::Reject {
            reason: RejectReason::Policy
        }
    );
}

#[test]
fn a_copied_runtime_plans_alike() {
    let runtime = Runtime::new(PolicyEngine::new(
        vec![PolicyRule {
            id: RuleId::new(9),
            tier: PolicyTier::UserHard,
            matcher: Matcher::All(vec![Matcher::Any, Matcher::Uid(10001)]),
            action: PolicyAction::Reject(RejectReason::Policy),
        }],
        PolicyAction::Route(Endpoint::Direct),
    ));
    let copy = runtime.clone();
    assert_eq!(copy.plan(&flow(10001)).matched_rule, Some(RuleId::new(9)));
    assert_eq!(copy.plan(&flow(10002)).matched_rule, None);
    assert_eq!(copy.plan(&flow(10001)).action, runtime.plan(&flow(10001)).action);
    let list = compile_blocklist("||ads.example^\n").unwrap();
    assert!(list.clone().filter().is_blocked("x.ads.example"));
}

#[test]
fn addresses_differ_by_their_flow_information() {
    let plain: SocketAddr = "[fe80::1]:53".parse().unwrap();
    assert_eq!(plain.flow_info, 0);
    let marked = SocketAddr { flow_info: 7, ..plain };
    assert_ne!(plain, marked);
}

#[test]
fn policy_rejection_is_preserved_before_connect() {
    let runtime = Runtime::new(PolicyEngine::new(
        Vec::new(),
        PolicyAction::Reject(RejectReason::Policy),
    ));
    let target = Target::new(DestinationHost::Ip(ip("127.0.0.1")), 80).unwrap();
    assert!(matches!(
        plan_action(&runtime, &target, TransportProtocol::Tcp, FlowId::new(1)),
        ExecutionAction::Reject { .. }
    ));
}

#[test]
fn transport_is_part_of_policy_planning() {
    let runtime = Runtime::new(PolicyEngine::new(
        vec![PolicyRule {
            id: RuleId::new(1),
            tier: PolicyTier::UserHard,
            matcher: Matcher::Transport(TransportProtocol::Udp),
            action: PolicyAction::Reject(RejectReason::Policy),
        }],
        PolicyAction::Route(Endpoint::Direct),
    ));
    let target = Target::new(DestinationHost::Ip(ip("127.0.0.1")), 53).unwrap();
    let mut ids = FlowIds::new();
    assert!(matches!(
        plan_action(&runtime, &target, TransportProtocol::Tcp, ids.take()),
        ExecutionAction::Route {
            endpoint: Endpoint::Direct
        }
    ));
    assert!(matches!(
        plan_action(&runtime, &target, TransportProtocol::Udp, ids.take()),
        ExecutionAction::Reject { .. }
    ));
}

#[test]
fn a_target_needs_a_port() {
    let error = Target::new(DestinationHost::Ip(ip("127.0.0.1")), 0).unwrap_err();
    assert_eq!(error.kind(), ErrorKind::InvalidInput);
    assert_eq!(error.text(), "destination port must not be zero");
}
