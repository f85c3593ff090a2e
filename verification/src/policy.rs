//! Policy rules and the engine that picks the one that governs a flow.

use crate::cidr::IpCidr;
use crate::domain_set::{DomainFilter, DomainFilterView};
use crate::flow::{
    DestinationHost, FlowContext, FlowView, HostView, NetworkKind, TransportProtocol,
};
use crate::net::IpAddr;
use crate::plan::{Endpoint, EndpointView, RejectReason};
use crate::text;
use crate::text::Class;
use vstd::prelude::*;
use vstd::string::*;

verus! {

#[derive(Clone, Copy, Debug, PartialEq, Eq, Hash, Structural)]
pub struct RuleId(u64);

impl RuleId {
    pub closed spec fn value(self) -> u64 {
        self.0
    }

    pub fn new(value: u64) -> (r: RuleId)
        ensures
            r.value() == value,
            r == RuleId::spec_new(value),
    {
        RuleId(value)
    }

    pub closed spec fn spec_new(value: u64) -> RuleId {
        RuleId(value)
    }

    pub fn get(self) -> (r: u64)
        ensures
            r == self.value(),
    {
        self.0
    }
}

/// Policy authority, ordered from strongest to weakest.
#[derive(Clone, Copy, Debug, PartialEq, Eq, Structural)]
pub enum PolicyTier {
    UserHard,
    Safety,
    Compatibility,
    Adaptive,
    Default,
}

impl PolicyTier {
    /// Zero for the strongest tier.
    pub open spec fn rank(self) -> nat {
        match self {
            PolicyTier::UserHard => 0,
            PolicyTier::Safety => 1,
            PolicyTier::Compatibility => 2,
            PolicyTier::Adaptive => 3,
            PolicyTier::Default => 4,
        }
    }

    /// The tier of a rank below five.
    pub open spec fn ranked(rank: nat) -> PolicyTier {
        if rank == 0 {
            PolicyTier::UserHard
        } else if rank == 1 {
            PolicyTier::Safety
        } else if rank == 2 {
            PolicyTier::Compatibility
        } else if rank == 3 {
            PolicyTier::Adaptive
        } else {
            PolicyTier::Default
        }
    }

    fn at(rank: u8) -> (r: PolicyTier)
        ensures
            r == PolicyTier::ranked(rank as nat),
    {
        match rank {
            0 => PolicyTier::UserHard,
            1 => PolicyTier::Safety,
            2 => PolicyTier::Compatibility,
            3 => PolicyTier::Adaptive,
            _ => PolicyTier::Default,
        }
    }
}

/// Typed match expression. Compatibility rule DSLs must compile into this form.
#[derive(Debug, PartialEq, Eq)]
pub enum Matcher {
    Any,
    Uid(u32),
    Package(String),
    DomainExact(String),
    DomainSuffix(String),
    DomainFilter(DomainFilter),
    Ip(IpAddr),
    Cidr(IpCidr),
    Port(u16),
    Transport(TransportProtocol),
    Network(NetworkKind),
    All(Vec<Matcher>),
    AnyOf(Vec<Matcher>),
    Not(Box<Matcher>),
}

#[verifier::ext_equal]
pub enum MatcherView {
    Any,
    Uid(u32),
    Package(Seq<char>),
    DomainExact(Seq<char>),
    DomainSuffix(Seq<char>),
    DomainFilter(DomainFilterView),
    Ip(IpAddr),
    Cidr(IpCidr),
    Port(u16),
    Transport(TransportProtocol),
    Network(NetworkKind),
    All(Seq<MatcherView>),
    AnyOf(Seq<MatcherView>),
    Not(Box<MatcherView>),
}

impl View for Matcher {
    type V = MatcherView;

    open spec fn view(&self) -> MatcherView {
        self.model()
    }
}

impl Matcher {
    /// The expression with its texts and lists as sequences.
    pub open spec fn model(self) -> MatcherView
        decreases self,
    {
        match self {
            Matcher::Any => MatcherView::Any,
            Matcher::Uid(uid) => MatcherView::Uid(uid),
            Matcher::Package(p) => MatcherView::Package(p@),
            Matcher::DomainExact(d) => MatcherView::DomainExact(d@),
            Matcher::DomainSuffix(d) => MatcherView::DomainSuffix(d@),
            Matcher::DomainFilter(f) => MatcherView::DomainFilter(f@),
            Matcher::Ip(a) => MatcherView::Ip(a),
            Matcher::Cidr(c) => MatcherView::Cidr(c),
            Matcher::Port(p) => MatcherView::Port(p),
            Matcher::Transport(t) => MatcherView::Transport(t),
            Matcher::Network(n) => MatcherView::Network(n),
            Matcher::All(v) => MatcherView::All(
                Seq::new(
                    v@.len(),
                    |i: int|
                        if 0 <= i < v@.len() {
                            v@[i].model()
                        } else {
                            MatcherView::Any
                        },
                ),
            ),
            Matcher::AnyOf(v) => MatcherView::AnyOf(
                Seq::new(
                    v@.len(),
                    |i: int|
                        if 0 <= i < v@.len() {
                            v@[i].model()
                        } else {
                            MatcherView::Any
                        },
                ),
            ),
            Matcher::Not(m) => MatcherView::Not(Box::new((*m).model())),
        }
    }
}

fn copy_matcher(m: &Matcher) -> (r: Matcher)
    ensures
        r@ == m@,
    decreases m,
{
    match m {
        Matcher::Any => Matcher::Any,
        Matcher::Uid(uid) => Matcher::Uid(*uid),
        Matcher::Package(p) => Matcher::Package(p.clone()),
        Matcher::DomainExact(d) => Matcher::DomainExact(d.clone()),
        Matcher::DomainSuffix(d) => Matcher::DomainSuffix(d.clone()),
        Matcher::DomainFilter(f) => Matcher::DomainFilter(f.clone()),
        Matcher::Ip(a) => Matcher::Ip(*a),
        Matcher::Cidr(c) => Matcher::Cidr(*c),
        Matcher::Port(p) => Matcher::Port(*p),
        Matcher::Transport(t) => Matcher::Transport(*t),
        Matcher::Network(n) => Matcher::Network(*n),
        Matcher::All(v) => {
            let mut out: Vec<Matcher> = Vec::new();
            let mut i: usize = 0;
            while i < v.len()
                invariant
                    i <= v@.len(),
                    out@.len() == i,
                    m matches Matcher::All(w) && w == v,
                    forall|j: int| 0 <= j < i ==> (#[trigger] out@[j])@ == v@[j]@,
                decreases v@.len() - i,
            {
                assert(decreases_to!(m => v@[i as int]));
                out.push(copy_matcher(&v[i]));
                i = i + 1;
            }
            let r = Matcher::All(out);
            assert(r@->All_0 =~= m@->All_0);
            r
        },
        Matcher::AnyOf(v) => {
            let mut out: Vec<Matcher> = Vec::new();
            let mut i: usize = 0;
            while i < v.len()
                invariant
                    i <= v@.len(),
                    out@.len() == i,
                    m matches Matcher::AnyOf(w) && w == v,
                    forall|j: int| 0 <= j < i ==> (#[trigger] out@[j])@ == v@[j]@,
                decreases v@.len() - i,
            {
                assert(decreases_to!(m => v@[i as int]));
                out.push(copy_matcher(&v[i]));
                i = i + 1;
            }
            let r = Matcher::AnyOf(out);
            assert(r@->AnyOf_0 =~= m@->AnyOf_0);
            r
        },
        Matcher::Not(inner) => Matcher::Not(Box::new(copy_matcher(inner))),
    }
}

impl Clone for Matcher {
    fn clone(&self) -> (r: Matcher)
        ensures
            r@ == self@,
    {
        copy_matcher(self)
    }
}

/// The domain is the suffix, or ends with a dot and the suffix, up to the case
/// of ASCII letters; dots around the suffix and behind the domain do not count.
pub open spec fn has_suffix(domain: Seq<char>, suffix: Seq<char>) -> bool {
    let d = text::trim_end(domain, Class::Is('.'));
    let s = text::trim(suffix, Class::Is('.'));
    let n = d.len() - s.len() - 1;
    &&& s.len() > 0
    &&& text::same_text(d, s) || (n >= 0 && d[n] == '.' && text::same_text(d.skip(n + 1), s))
}

impl MatcherView {
    /// Every network in the expression has a prefix that fits its family.
    pub open spec fn wf(self) -> bool
        decreases self,
    {
        match self {
            MatcherView::Cidr(c) => c.fits(),
            MatcherView::All(v) => forall|i: int| 0 <= i < v.len() ==> (#[trigger] v[i]).wf(),
            MatcherView::AnyOf(v) => forall|i: int| 0 <= i < v.len() ==> (#[trigger] v[i]).wf(),
            MatcherView::Not(m) => (*m).wf(),
            _ => true,
        }
    }

    /// Whether the flow meets the expression.
    pub open spec fn holds(self, flow: FlowView) -> bool
        decreases self,
    {
        match self {
            MatcherView::Any => true,
            MatcherView::Uid(uid) => flow.source.uid == Some(uid),
            MatcherView::Package(p) => flow.source.package == Some(p),
            MatcherView::DomainExact(e) => flow.destination.host matches HostView::Domain(d)
                && text::same_text(d, e),
            MatcherView::DomainSuffix(s) => flow.destination.host matches HostView::Domain(d)
                && has_suffix(d, s),
            MatcherView::DomainFilter(f) => flow.destination.host matches HostView::Domain(d)
                && f.blocks(d),
            MatcherView::Ip(a) => flow.destination.host == HostView::Ip(a),
            MatcherView::Cidr(c) => flow.destination.host matches HostView::Ip(a) && c.has(a),
            MatcherView::Port(p) => flow.destination.port == p,
            MatcherView::Transport(t) => flow.transport == t,
            MatcherView::Network(k) => flow.network.kind == k,
            MatcherView::All(v) => forall|i: int|
                0 <= i < v.len() ==> (#[trigger] v[i]).holds(flow),
            MatcherView::AnyOf(v) => exists|i: int|
                0 <= i < v.len() && (#[trigger] v[i]).holds(flow),
            MatcherView::Not(m) => !(*m).holds(flow),
        }
    }
}

/// Suffix match on label boundaries.
pub fn domain_matches_suffix(domain: &str, suffix: &str) -> (r: bool)
    ensures
        r == has_suffix(domain@, suffix@),
{
    let domain_chars = text::chars_of(domain);
    let suffix_chars = text::chars_of(suffix);
    let d = text::trim_end_of(domain_chars.as_slice(), Class::Is('.'));
    let s = text::trim_of(suffix_chars.as_slice(), Class::Is('.'));
    if s.len() == 0 {
        return false;
    }
    if text::same_text_of(d, s) {
        return true;
    }
    if d.len() <= s.len() {
        return false;
    }
    let n: usize = d.len() - s.len() - 1;
    d[n] == '.' && text::same_text_of(&d[n + 1..d.len()], s)
}

impl Matcher {
    /// Whether the flow meets the expression.
    pub fn matches(&self, flow: &FlowContext) -> (r: bool)
        requires
            self@.wf(),
        ensures
            r == self@.holds(flow@),
        decreases self,
    {
        match self {
            Matcher::Any => true,
            Matcher::Uid(uid) => match flow.source.uid {
                Some(actual) => actual == *uid,
                None => false,
            },
            Matcher::Package(package) => match &flow.source.package {
                Some(actual) => text::same(actual.as_str(), package.as_str()),
                None => false,
            },
            Matcher::DomainExact(expected) => match &flow.destination.host {
                DestinationHost::Domain(domain) => {
                    let d = text::chars_of(domain.as_str());
                    let e = text::chars_of(expected.as_str());
                    text::same_text_of(d.as_slice(), e.as_slice())
                },
                DestinationHost::Ip(_) => false,
            },
            Matcher::DomainSuffix(suffix) => match &flow.destination.host {
                DestinationHost::Domain(domain) => domain_matches_suffix(
                    domain.as_str(),
                    suffix.as_str(),
                ),
                DestinationHost::Ip(_) => false,
            },
            Matcher::DomainFilter(filter) => match &flow.destination.host {
                DestinationHost::Domain(domain) => filter.is_blocked(domain.as_str()),
                DestinationHost::Ip(_) => false,
            },
            Matcher::Ip(expected) => match flow.destination.host {
                DestinationHost::Ip(actual) => actual == *expected,
                DestinationHost::Domain(_) => false,
            },
            Matcher::Cidr(network) => match flow.destination.host {
                DestinationHost::Ip(actual) => network.contains(actual),
                DestinationHost::Domain(_) => false,
            },
            Matcher::Port(port) => flow.destination.port == *port,
            Matcher::Transport(protocol) => flow.transport == *protocol,
            Matcher::Network(kind) => flow.network.kind == *kind,
            Matcher::All(matchers) => {
                let ghost v = self@->All_0;
                let mut i: usize = 0;
                while i < matchers.len()
                    invariant
                        i <= matchers@.len(),
                        self matches Matcher::All(m) && m == matchers,
                        v == self@->All_0,
                        v.len() == matchers@.len(),
                        self@.wf(),
                        forall|j: int| 0 <= j < i ==> (#[trigger] v[j]).holds(flow@),
                    decreases matchers@.len() - i,
                {
                    assert(v[i as int] == matchers@[i as int]@);
                    assert(decreases_to!(self => matchers@[i as int]));
                    if !matchers[i].matches(flow) {
                        assert(!v[i as int].holds(flow@));
                        return false;
                    }
                    i = i + 1;
                }
                true
            },
            Matcher::AnyOf(matchers) => {
                let ghost v = self@->AnyOf_0;
                let mut i: usize = 0;
                while i < matchers.len()
                    invariant
                        i <= matchers@.len(),
                        self matches Matcher::AnyOf(m) && m == matchers,
                        v == self@->AnyOf_0,
                        v.len() == matchers@.len(),
                        self@.wf(),
                        forall|j: int| 0 <= j < i ==> !(#[trigger] v[j]).holds(flow@),
                    decreases matchers@.len() - i,
                {
                    assert(v[i as int] == matchers@[i as int]@);
                    assert(decreases_to!(self => matchers@[i as int]));
                    if matchers[i].matches(flow) {
                        assert(v[i as int].holds(flow@));
                        return true;
                    }
                    i = i + 1;
                }
                false
            },
            Matcher::Not(matcher) => !matcher.matches(flow),
        }
    }
}


#[derive(Debug, PartialEq, Eq)]
pub enum PolicyAction {
    Route(Endpoint),
    Reject(RejectReason),
}

#[verifier::ext_equal]
pub enum ActionView {
    Route(EndpointView),
    Reject(RejectReason),
}

impl View for PolicyAction {
    type V = ActionView;

    open spec fn view(&self) -> ActionView {
        match self {
            PolicyAction::Route(e) => ActionView::Route(e@),
            PolicyAction::Reject(r) => ActionView::Reject(*r),
        }
    }
}

impl Clone for PolicyAction {
    fn clone(&self) -> (r: PolicyAction)
        ensures
            r@ == self@,
    {
        match self {
            PolicyAction::Route(e) => PolicyAction::Route(e.clone()),
            PolicyAction::Reject(r) => PolicyAction::Reject(*r),
        }
    }
}

#[derive(Debug, PartialEq, Eq)]
pub struct PolicyRule {
    pub id: RuleId,
    pub tier: PolicyTier,
    pub matcher: Matcher,
    pub action: PolicyAction,
}

#[verifier::ext_equal]
pub struct RuleView {
    pub id: RuleId,
    pub tier: PolicyTier,
    pub matcher: MatcherView,
    pub action: ActionView,
}

impl View for PolicyRule {
    type V = RuleView;

    open spec fn view(&self) -> RuleView {
        RuleView {
            id: self.id,
            tier: self.tier,
            matcher: self.matcher@,
            action: self.action@,
        }
    }
}

impl Clone for PolicyRule {
    fn clone(&self) -> (r: PolicyRule)
        ensures
            r@ == self@,
    {
        PolicyRule {
            id: self.id,
            tier: self.tier,
            matcher: self.matcher.clone(),
            action: self.action.clone(),
        }
    }
}

/// The models of a list of rules.
pub open spec fn rule_views(rules: Seq<PolicyRule>) -> Seq<RuleView> {
    Seq::new(rules.len(), |i: int| rules[i]@)
}

pub open spec fn rules_wf(rules: Seq<RuleView>) -> bool {
    forall|i: int| 0 <= i < rules.len() ==> (#[trigger] rules[i]).matcher.wf()
}

#[derive(Debug, PartialEq, Eq)]
pub struct PolicyDecision {
    pub rule_id: Option<RuleId>,
    pub tier: PolicyTier,
    pub action: PolicyAction,
}

#[verifier::ext_equal]
pub struct DecisionView {
    pub rule_id: Option<RuleId>,
    pub tier: PolicyTier,
    pub action: ActionView,
}

impl View for PolicyDecision {
    type V = DecisionView;

    open spec fn view(&self) -> DecisionView {
        DecisionView { rule_id: self.rule_id, tier: self.tier, action: self.action@ }
    }
}

impl Clone for PolicyDecision {
    fn clone(&self) -> (r: PolicyDecision)
        ensures
            r@ == self@,
    {
        PolicyDecision { rule_id: self.rule_id, tier: self.tier, action: self.action.clone() }
    }
}

impl RuleView {
    /// The rule has the tier and matches the flow.
    pub open spec fn applies(self, tier: PolicyTier, flow: FlowView) -> bool {
        self.tier == tier && self.matcher.holds(flow)
    }
}

/// The first rule of a tier that matches the flow.
pub open spec fn first_in_tier(rules: Seq<RuleView>, tier: PolicyTier, flow: FlowView) -> Option<
    RuleView,
>
    decreases rules.len(),
{
    if rules.len() == 0 {
        None
    } else if rules[0].applies(tier, flow) {
        Some(rules[0])
    } else {
        first_in_tier(rules.drop_first(), tier, flow)
    }
}

/// The first matching rule of the strongest tier of at least this rank that has
/// one; without any, the default action.
pub open spec fn decision_from(
    rules: Seq<RuleView>,
    default_action: ActionView,
    flow: FlowView,
    rank: nat,
) -> DecisionView
    decreases 5 - rank,
{
    if rank >= 5 {
        DecisionView { rule_id: None, tier: PolicyTier::Default, action: default_action }
    } else {
        match first_in_tier(rules, PolicyTier::ranked(rank), flow) {
            Some(rule) => DecisionView {
                rule_id: Some(rule.id),
                tier: rule.tier,
                action: rule.action,
            },
            None => decision_from(rules, default_action, flow, rank + 1),
        }
    }
}

pub open spec fn decision(
    rules: Seq<RuleView>,
    default_action: ActionView,
    flow: FlowView,
) -> DecisionView {
    decision_from(rules, default_action, flow, 0)
}

/// Deterministic first-match engine within each authority tier.
#[derive(Debug)]
pub struct PolicyEngine {
    rules: Vec<PolicyRule>,
    default_action: PolicyAction,
}

#[verifier::ext_equal]
pub struct EngineView {
    pub rules: Seq<RuleView>,
    pub default_action: ActionView,
}

impl View for PolicyEngine {
    type V = EngineView;

    closed spec fn view(&self) -> EngineView {
        EngineView { rules: rule_views(self.rules@), default_action: self.default_action@ }
    }
}

impl Clone for PolicyEngine {
    fn clone(&self) -> (r: PolicyEngine)
        ensures
            r@ == self@,
    {
        proof {
            use_type_invariant(self);
        }
        let mut rules: Vec<PolicyRule> = Vec::new();
        let mut i: usize = 0;
        while i < self.rules.len()
            invariant
                i <= self.rules@.len(),
                rules@.len() == i,
                forall|j: int| 0 <= j < i ==> (#[trigger] rules@[j])@ == self.rules@[j]@,
            decreases self.rules@.len() - i,
        {
            rules.push(self.rules[i].clone());
            i = i + 1;
        }
        assert(rule_views(rules@) =~= rule_views(self.rules@));
        PolicyEngine { rules, default_action: self.default_action.clone() }
    }
}

impl EngineView {
    pub open spec fn decides(self, flow: FlowView) -> DecisionView {
        decision(self.rules, self.default_action, flow)
    }
}

impl PolicyEngine {
    #[verifier::type_invariant]
    spec fn wf(self) -> bool {
        rules_wf(rule_views(self.rules@))
    }

    pub fn new(rules: Vec<PolicyRule>, default_action: PolicyAction) -> (r: PolicyEngine)
        requires
            rules_wf(rule_views(rules@)),
        ensures
            r@ == (EngineView {
                rules: rule_views(rules@),
                default_action: default_action@,
            }),
    {
        PolicyEngine { rules, default_action }
    }

    /// The decision for one flow.
    pub fn decide(&self, flow: &FlowContext) -> (r: PolicyDecision)
        ensures
            r@ == self@.decides(flow@),
    {
        proof {
            use_type_invariant(self);
        }
        let ghost rules = rule_views(self.rules@);
        let mut rank: u8 = 0;
        while rank < 5
            invariant
                rank <= 5,
                rules == rule_views(self.rules@),
                rules_wf(rules),
                decision(rules, self.default_action@, flow@) == decision_from(
                    rules,
                    self.default_action@,
                    flow@,
                    rank as nat,
                ),
            decreases 5 - rank,
        {
            let tier = PolicyTier::at(rank);
            let mut i: usize = 0;
            assert(rules.skip(0) == rules);
            while i < self.rules.len()
                invariant
                    i <= self.rules@.len(),
                    rank < 5,
                    tier == PolicyTier::ranked(rank as nat),
                    rules == rule_views(self.rules@),
                    rules_wf(rules),
                    decision(rules, self.default_action@, flow@) == decision_from(
                        rules,
                        self.default_action@,
                        flow@,
                        rank as nat,
                    ),
                    first_in_tier(rules, tier, flow@) == first_in_tier(
                        rules.skip(i as int),
                        tier,
                        flow@,
                    ),
                decreases self.rules@.len() - i,
            {
                let rule = &self.rules[i];
                assert(rules[i as int] == rule@);
                assert(rules.skip(i as int)[0] == rule@);
                assert(rules.skip(i as int).drop_first() == rules.skip(i + 1));
                if rule.tier == tier && rule.matcher.matches(flow) {
                    return PolicyDecision {
                        rule_id: Some(rule.id),
                        tier,
                        action: rule.action.clone(),
                    };
                }
                i = i + 1;
            }
            rank = rank + 1;
        }
        PolicyDecision {
            rule_id: None,
            tier: PolicyTier::Default,
            action: self.default_action.clone(),
        }
    }
}

/// What makes rule `i` the governing rule of a flow: it matches, no rule of a
/// stronger tier does, and no earlier rule of its own tier does.
pub open spec fn governs(rules: Seq<RuleView>, i: int, flow: FlowView) -> bool {
    &&& 0 <= i < rules.len()
    &&& rules[i].matcher.holds(flow)
    &&& forall|j: int|
        0 <= j < rules.len() && (#[trigger] rules[j]).matcher.holds(flow) ==> rules[i].tier.rank()
            < rules[j].tier.rank() || (rules[i].tier == rules[j].tier && i <= j)
}

proof fn lemma_first_in_tier(rules: Seq<RuleView>, tier: PolicyTier, flow: FlowView) -> (k: int)
    ensures
        match first_in_tier(rules, tier, flow) {
            Some(rule) => {
                &&& 0 <= k < rules.len()
                &&& rules[k] == rule
                &&& rule.applies(tier, flow)
                &&& forall|j: int| 0 <= j < k ==> !(#[trigger] rules[j]).applies(tier, flow)
            },
            None => forall|j: int|
                0 <= j < rules.len() ==> !(#[trigger] rules[j]).applies(tier, flow),
        },
    decreases rules.len(),
{
    if rules.len() == 0 {
        0
    } else if rules[0].applies(tier, flow) {
        0
    } else {
        let rest = rules.drop_first();
        let k = lemma_first_in_tier(rest, tier, flow);
        assert forall|j: int|
            0 <= j < rules.len() && (first_in_tier(rest, tier, flow) is Some ==> j < k
                + 1) implies !(#[trigger] rules[j]).applies(tier, flow) by {
            if j > 0 {
                assert(!rest[j - 1].applies(tier, flow));
            }
        }
        k + 1
    }
}

proof fn lemma_decision_from(
    rules: Seq<RuleView>,
    default_action: ActionView,
    flow: FlowView,
    rank: nat,
)
    requires
        rank <= 5,
        forall|j: int|
            0 <= j < rules.len() && (#[trigger] rules[j]).tier.rank() < rank
                ==> !rules[j].matcher.holds(flow),
    ensures
        ({
            let d = decision_from(rules, default_action, flow, rank);
            ||| (exists|i: int|
                #[trigger] governs(rules, i, flow) && d.rule_id == Some(rules[i].id) && d.tier
                    == rules[i].tier && d.action == rules[i].action)
            ||| ((forall|j: int| 0 <= j < rules.len() ==> !(#[trigger] rules[j]).matcher.holds(flow))
                && d == DecisionView {
                rule_id: None,
                tier: PolicyTier::Default,
                action: default_action,
            })
        }),
    decreases 5 - rank,
{
    if rank < 5 {
        let tier = PolicyTier::ranked(rank);
        let k = lemma_first_in_tier(rules, tier, flow);
        match first_in_tier(rules, tier, flow) {
            Some(rule) => {
                assert forall|j: int|
                    0 <= j < rules.len() && (#[trigger] rules[j]).matcher.holds(
                        flow,
                    ) implies rules[k].tier.rank() < rules[j].tier.rank() || (rules[k].tier
                    == rules[j].tier && k <= j) by {
                    if rules[j].tier.rank() == rank {
                        assert(rules[j].tier == tier);
                        if j < k {
                            assert(!rules[j].applies(tier, flow));
                        }
                    }
                }
                assert(governs(rules, k, flow));
            },
            None => {
                assert forall|j: int|
                    0 <= j < rules.len() && (#[trigger] rules[j]).tier.rank() < rank + 1 implies
                    !rules[j].matcher.holds(flow) by {
                    if rules[j].tier.rank() == rank {
                        assert(rules[j].tier == tier);
                        assert(!rules[j].applies(tier, flow));
                    }
                }
                lemma_decision_from(rules, default_action, flow, rank + 1);
            },
        }
    }
}

/// A decision comes from the first matching rule of the strongest tier that has a
/// matching rule; where no rule matches, it is the default action.
pub proof fn law_decision_is_the_governing_rule(engine: EngineView, flow: FlowView)
    ensures
        (exists|i: int|
            #[trigger] governs(engine.rules, i, flow) && engine.decides(flow) == (DecisionView {
                rule_id: Some(engine.rules[i].id),
                tier: engine.rules[i].tier,
                action: engine.rules[i].action,
            })) || ((forall|j: int|
            0 <= j < engine.rules.len() ==> !(#[trigger] engine.rules[j]).matcher.holds(flow))
            && engine.decides(flow) == (DecisionView {
            rule_id: None,
            tier: PolicyTier::Default,
            action: engine.default_action,
        })),
{
    lemma_decision_from(engine.rules, engine.default_action, flow, 0);
    let d = engine.decides(flow);
    if exists|i: int|
        #[trigger] governs(engine.rules, i, flow) && d.rule_id == Some(engine.rules[i].id)
            && d.tier == engine.rules[i].tier && d.action == engine.rules[i].action {
        let i = choose|i: int|
            #[trigger] governs(engine.rules, i, flow) && d.rule_id == Some(engine.rules[i].id)
                && d.tier == engine.rules[i].tier && d.action == engine.rules[i].action;
        assert(d == DecisionView {
            rule_id: Some(engine.rules[i].id),
            tier: engine.rules[i].tier,
            action: engine.rules[i].action,
        });
    }
}

/// A matching rule of a stronger tier is never overridden by one of a weaker
/// tier, wherever the two stand in the list.
pub proof fn law_stronger_tier_prevails(engine: EngineView, flow: FlowView, strong: int)
    requires
        0 <= strong < engine.rules.len(),
        engine.rules[strong].matcher.holds(flow),
    ensures
        engine.decides(flow).tier.rank() <= engine.rules[strong].tier.rank(),
        engine.decides(flow).rule_id is Some,
{
    law_decision_is_the_governing_rule(engine, flow);
    if exists|i: int|
        #[trigger] governs(engine.rules, i, flow) && engine.decides(flow) == (DecisionView {
            rule_id: Some(engine.rules[i].id),
            tier: engine.rules[i].tier,
            action: engine.rules[i].action,
        }) {
        let i = choose|i: int|
            #[trigger] governs(engine.rules, i, flow) && engine.decides(flow) == (DecisionView {
                rule_id: Some(engine.rules[i].id),
                tier: engine.rules[i].tier,
                action: engine.rules[i].action,
            });
        assert(governs(engine.rules, i, flow));
        assert(engine.rules[strong].matcher.holds(flow));
    }
}

/// An address matcher never matches a domain, and a domain matcher never matches
/// an address.
pub proof fn law_identities_do_not_cross_match(matcher: MatcherView, flow: FlowView)
    requires
        matcher is Ip || matcher is Cidr || matcher is DomainExact || matcher is DomainSuffix
            || matcher is DomainFilter,
    ensures
        (matcher is Ip || matcher is Cidr) && flow.destination.host is Domain ==> !matcher.holds(
            flow,
        ),
        (matcher is DomainExact || matcher is DomainSuffix || matcher is DomainFilter)
            && flow.destination.host is Ip ==> !matcher.holds(flow),
{
}

/// A suffix matches only at a label boundary: putting characters other than a
/// dot directly in front of it gives a domain that it does not match.
pub proof fn law_suffix_needs_label_boundary(prefix: Seq<char>, suffix: Seq<char>)
    requires
        suffix.len() > 0,
        suffix[0] != '.',
        suffix.last() != '.',
        prefix.len() > 0,
        prefix.last() != '.',
    ensures
        has_suffix(suffix, suffix),
        !has_suffix(prefix + suffix, suffix),
        has_suffix(prefix.push('.') + suffix, suffix),
{
    text::lemma_trim_nothing(suffix, Class::Is('.'));
    let a = prefix + suffix;
    assert(a.last() == suffix.last());
    text::lemma_trailing(a, Class::Is('.'));
    assert(text::trailing(a, Class::Is('.')) == 0);
    assert(a.take(a.len() as int) == a);
    let n = a.len() - suffix.len() - 1;
    assert(a[n] == prefix.last());
    assert(text::lower(a).len() != text::lower(suffix).len());
    let b = prefix.push('.') + suffix;
    assert(b.last() == suffix.last());
    text::lemma_trailing(b, Class::Is('.'));
    assert(text::trailing(b, Class::Is('.')) == 0);
    assert(b.take(b.len() as int) == b);
    assert(b.skip(b.len() - suffix.len()) == suffix);
}

/// An address matcher holds for flows to its address and for no others, just as the
/// network does that has this address alone.
pub proof fn law_address_matcher_is_a_network_of_one(address: IpAddr, flow: FlowView)
    ensures
        MatcherView::Ip(address).holds(flow) <==> flow.destination.host == HostView::Ip(address),
        address matches IpAddr::V4(a) ==> MatcherView::Ip(address).holds(flow) == MatcherView::Cidr(
            IpCidr::V4 { network: a, prefix: 32 },
        ).holds(flow),
        address matches IpAddr::V6(a) ==> MatcherView::Ip(address).holds(flow) == MatcherView::Cidr(
            IpCidr::V6 { network: a, prefix: 128 },
        ).holds(flow),
{
    if let HostView::Ip(b) = flow.destination.host {
        match address {
            IpAddr::V4(a) => crate::cidr::law_full_prefix_matches_one(
                IpCidr::V4 { network: a, prefix: 32 },
                b,
            ),
            IpAddr::V6(a) => crate::cidr::law_full_prefix_matches_one(
                IpCidr::V6 { network: a, prefix: 128 },
                b,
            ),
        }
    }
}

/// A matcher of one property holds for the flows that have it and for no others.
pub proof fn law_matchers_hold_for_what_they_name(
    flow: FlowView,
    uid: u32,
    package: Seq<char>,
    port: u16,
    transport: TransportProtocol,
    kind: NetworkKind,
)
    ensures
        MatcherView::Any.holds(flow),
        MatcherView::Uid(uid).holds(flow) <==> (flow.source.uid matches Some(u) && u == uid),
        MatcherView::Package(package).holds(flow) <==> (flow.source.package matches Some(p) && p
            == package),
        MatcherView::Port(port).holds(flow) <==> flow.destination.port == port,
        MatcherView::Transport(transport).holds(flow) <==> flow.transport == transport,
        MatcherView::Network(kind).holds(flow) <==> flow.network.kind == kind,
{
}

/// A domain matcher holds for flows to its name, in any case, and for no others.
pub proof fn law_domain_matcher_names_one_domain(flow: FlowView, name: Seq<char>, d: Seq<char>)
    requires
        flow.destination.host == HostView::Domain(d),
    ensures
        d == name ==> MatcherView::DomainExact(name).holds(flow),
        MatcherView::DomainExact(name).holds(flow) == MatcherView::DomainExact(
            text::lower(name),
        ).holds(flow),
        MatcherView::DomainExact(name).holds(flow) ==> d.len() == name.len() && forall|i: int|
            0 <= i < d.len() ==> {
                ||| #[trigger] d[i] == name[i]
                ||| 'A' <= d[i] <= 'Z' && name[i] as int == d[i] as int + 32
                ||| 'A' <= name[i] <= 'Z' && d[i] as int == name[i] as int + 32
            },
{
    text::law_same_text_ignores_case_alone(d, name);
    text::law_same_text_ignores_case_alone(name, name);
}

/// The name is one that ends with the suffix at a label boundary, up to case.
pub open spec fn ends_at_label(name: Seq<char>, suffix: Seq<char>, n: int) -> bool {
    &&& 0 <= n <= name.len()
    &&& text::same_text(name.skip(n), suffix)
    &&& n > 0 ==> name[n - 1] == '.'
}

/// A suffix matches a name exactly where the name ends with it at a label boundary.
pub proof fn law_suffix_is_the_end_of_the_name(name: Seq<char>, suffix: Seq<char>)
    requires
        suffix.len() > 0,
        suffix[0] != '.',
        suffix.last() != '.',
        name.len() > 0 ==> name.last() != '.',
    ensures
        has_suffix(name, suffix) <==> exists|n: int| #[trigger] ends_at_label(name, suffix, n),
{
    text::lemma_trim_nothing(suffix, Class::Is('.'));
    text::lemma_trailing(name, Class::Is('.'));
    assert(text::trailing(name, Class::Is('.')) == 0);
    assert(name.take(name.len() as int) =~= name);
    let m = name.len() - suffix.len();
    text::law_same_text_ignores_case_alone(name, suffix);
    assert(name.skip(0) =~= name);
    if has_suffix(name, suffix) {
        if text::same_text(name, suffix) {
            assert(ends_at_label(name, suffix, 0));
        } else {
            assert(ends_at_label(name, suffix, m));
        }
    }
    if exists|n: int| #[trigger] ends_at_label(name, suffix, n) {
        let n = choose|n: int| #[trigger] ends_at_label(name, suffix, n);
        text::law_same_text_ignores_case_alone(name.skip(n), suffix);
        assert(n == m);
    }
}

/// Expressions combine as their words say: all, any, and not.
pub proof fn law_matchers_combine(v: Seq<MatcherView>, m: MatcherView, flow: FlowView)
    ensures
        MatcherView::Not(Box::new(m)).holds(flow) <==> !m.holds(flow),
        MatcherView::All(Seq::empty()).holds(flow),
        !MatcherView::AnyOf(Seq::empty()).holds(flow),
        MatcherView::All(v.push(m)).holds(flow) <==> MatcherView::All(v).holds(flow) && m.holds(
            flow,
        ),
        MatcherView::AnyOf(v.push(m)).holds(flow) <==> MatcherView::AnyOf(v).holds(flow)
            || m.holds(flow),
{
    let w = v.push(m);
    lemma_all_of(v, flow);
    lemma_all_of(w, flow);
    lemma_any_of(v, flow);
    lemma_any_of(w, flow);
    assert(w[v.len() as int] == m);
    assert forall|i: int| 0 <= i < v.len() implies w[i] == v[i] by {}
    if MatcherView::All(w).holds(flow) {
        assert forall|i: int| 0 <= i < v.len() implies (#[trigger] v[i]).holds(flow) by {
            assert(w[i].holds(flow));
        }
        assert(w[v.len() as int].holds(flow));
    }
    if MatcherView::AnyOf(v).holds(flow) {
        let i = choose|i: int| 0 <= i < v.len() && (#[trigger] v[i]).holds(flow);
        assert(w[i].holds(flow));
    }
    if MatcherView::AnyOf(w).holds(flow) {
        let i = choose|i: int| 0 <= i < w.len() && (#[trigger] w[i]).holds(flow);
        if i < v.len() {
            assert(v[i].holds(flow));
        }
    }
    if m.holds(flow) {
        assert(w[v.len() as int].holds(flow));
    }
}

proof fn lemma_all_of(v: Seq<MatcherView>, flow: FlowView)
    ensures
        MatcherView::All(v).holds(flow) <==> forall|i: int|
            0 <= i < v.len() ==> (#[trigger] v[i]).holds(flow),
{
    let all = MatcherView::All(v);
    assert(all->All_0 == v);
    if all.holds(flow) {
        assert forall|i: int| 0 <= i < v.len() implies (#[trigger] v[i]).holds(flow) by {
            assert(all->All_0[i].holds(flow));
        }
    }
}

proof fn lemma_any_of(v: Seq<MatcherView>, flow: FlowView)
    ensures
        MatcherView::AnyOf(v).holds(flow) <==> exists|i: int|
            0 <= i < v.len() && (#[trigger] v[i]).holds(flow),
{
    let any = MatcherView::AnyOf(v);
    assert(any->AnyOf_0 == v);
    if exists|i: int| 0 <= i < v.len() && (#[trigger] v[i]).holds(flow) {
        let i = choose|i: int| 0 <= i < v.len() && (#[trigger] v[i]).holds(flow);
        assert(any->AnyOf_0[i].holds(flow));
    }
}

/// A domain filter matches what its list blocks and its exceptions do not lift, for
/// domains alone.
pub proof fn law_filter_matches_what_it_blocks(filter: DomainFilterView, flow: FlowView)
    ensures
        MatcherView::DomainFilter(filter).holds(flow) <==> (flow.destination.host matches
            HostView::Domain(d) && filter.blocked.has(d) && !filter.allowed.has(d)),
{
}

/// The tiers are ranked: what the user insists on comes before safety, safety before
/// compatibility, that before what adapts, and the default comes last.
pub proof fn law_tiers_are_ranked(tier: PolicyTier, rank: nat)
    ensures
        PolicyTier::UserHard.rank() < PolicyTier::Safety.rank(),
        PolicyTier::Safety.rank() < PolicyTier::Compatibility.rank(),
        PolicyTier::Compatibility.rank() < PolicyTier::Adaptive.rank(),
        PolicyTier::Adaptive.rank() < PolicyTier::Default.rank(),
        PolicyTier::ranked(tier.rank()) == tier,
        rank < 5 ==> PolicyTier::ranked(rank).rank() == rank,
{
}

} // verus!
