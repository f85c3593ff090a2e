//! Execution plans and the endpoints that they name.

use crate::flow::FlowId;
use crate::policy::{PolicyTier, RuleId};
use crate::text;
use vstd::prelude::*;
use vstd::string::*;

verus! {

pub const MAX_ENDPOINT_ID_LENGTH: usize = 64;

/// Stable native identity for an execution endpoint.
///
/// The core intentionally knows only the identity, not whether the endpoint is
/// SOCKS5, HTTP CONNECT, VLESS, Trojan, QUIC, or another future implementation.
#[derive(Debug, PartialEq, Eq, PartialOrd, Ord, Hash)]
pub struct EndpointId(String);

#[derive(Clone, Copy, Debug, PartialEq, Eq, Structural)]
pub struct EndpointIdError;

pub open spec fn is_id_char(c: char) -> bool {
    ||| '0' <= c <= '9'
    ||| 'A' <= c <= 'Z'
    ||| 'a' <= c <= 'z'
    ||| c == '-'
    ||| c == '_'
    ||| c == '.'
}

/// One to 64 ASCII letters, digits, dots, hyphens and underscores.
pub open spec fn is_endpoint_id(s: Seq<char>) -> bool {
    &&& 1 <= s.len() <= 64
    &&& forall|i: int| 0 <= i < s.len() ==> is_id_char(#[trigger] s[i])
}

impl View for EndpointId {
    type V = Seq<char>;

    closed spec fn view(&self) -> Seq<char> {
        self.0@
    }
}

/// Whether the text can identify an endpoint.
pub fn is_endpoint_id_of(s: &[char]) -> (r: bool)
    ensures
        r == is_endpoint_id(s@),
{
    if s.len() == 0 || s.len() > MAX_ENDPOINT_ID_LENGTH {
        return false;
    }
    let mut i: usize = 0;
    while i < s.len()
        invariant
            i <= s@.len(),
            forall|j: int| 0 <= j < i ==> is_id_char(#[trigger] s@[j]),
        decreases s@.len() - i,
    {
        let c = s[i];
        if !(('0' <= c && c <= '9') || ('A' <= c && c <= 'Z') || ('a' <= c && c <= 'z') || c == '-'
            || c == '_' || c == '.') {
            assert(!is_id_char(s@[i as int]));
            return false;
        }
        i = i + 1;
    }
    true
}

impl EndpointId {
    #[verifier::type_invariant]
    spec fn wf(self) -> bool {
        is_endpoint_id(self.0@)
    }

    pub fn new(value: &str) -> (r: Result<EndpointId, EndpointIdError>)
        ensures
            match r {
                Ok(id) => is_endpoint_id(value@) && id@ == value@,
                Err(_) => !is_endpoint_id(value@),
            },
    {
        let chars = text::chars_of(value);
        if is_endpoint_id_of(chars.as_slice()) {
            Ok(EndpointId(value.to_owned()))
        } else {
            Err(EndpointIdError)
        }
    }

    pub fn as_str(&self) -> (r: &str)
        ensures
            r@ == self@,
            is_endpoint_id(r@),
    {
        proof {
            use_type_invariant(self);
        }
        self.0.as_str()
    }
}

impl Clone for EndpointId {
    fn clone(&self) -> (r: EndpointId)
        ensures
            r@ == self@,
    {
        proof {
            use_type_invariant(self);
        }
        EndpointId(self.0.clone())
    }
}

impl EndpointIdError {
    /// The message.
    pub fn text(self) -> (r: String)
        ensures
            r@ == "endpoint id must be 1..=64 ASCII alphanumeric/._- characters"@,
    {
        "endpoint id must be 1..=64 ASCII alphanumeric/._- characters".to_owned()
    }
}

/// A concrete egress target. Actions are deliberately not represented here.
#[derive(Debug, PartialEq, Eq, Hash)]
pub enum Endpoint {
    Direct,
    Proxy(EndpointId),
}

#[verifier::ext_equal]
pub enum EndpointView {
    Direct,
    Proxy(Seq<char>),
}

impl View for Endpoint {
    type V = EndpointView;

    open spec fn view(&self) -> EndpointView {
        match self {
            Endpoint::Direct => EndpointView::Direct,
            Endpoint::Proxy(id) => EndpointView::Proxy(id@),
        }
    }
}

impl Clone for Endpoint {
    fn clone(&self) -> (r: Endpoint)
        ensures
            r@ == self@,
    {
        match self {
            Endpoint::Direct => Endpoint::Direct,
            Endpoint::Proxy(id) => Endpoint::Proxy(id.clone()),
        }
    }
}

#[derive(Clone, Copy, Debug, PartialEq, Eq, Structural)]
pub enum RejectReason {
    Policy,
    Security,
    Unsupported,
}

#[derive(Debug, PartialEq, Eq)]
pub enum ExecutionAction {
    Route { endpoint: Endpoint },
    Reject { reason: RejectReason },
}

#[verifier::ext_equal]
pub enum ExecutionView {
    Route { endpoint: EndpointView },
    Reject { reason: RejectReason },
}

impl View for ExecutionAction {
    type V = ExecutionView;

    open spec fn view(&self) -> ExecutionView {
        match self {
            ExecutionAction::Route { endpoint } => ExecutionView::Route { endpoint: endpoint@ },
            ExecutionAction::Reject { reason } => ExecutionView::Reject { reason: *reason },
        }
    }
}

impl Clone for ExecutionAction {
    fn clone(&self) -> (r: ExecutionAction)
        ensures
            r@ == self@,
    {
        match self {
            ExecutionAction::Route { endpoint } => ExecutionAction::Route {
                endpoint: endpoint.clone(),
            },
            ExecutionAction::Reject { reason } => ExecutionAction::Reject { reason: *reason },
        }
    }
}

/// Immutable result of policy evaluation for one flow.
#[derive(Debug, PartialEq, Eq)]
pub struct ExecutionPlan {
    pub flow_id: FlowId,
    pub action: ExecutionAction,
    pub matched_rule: Option<RuleId>,
    pub tier: PolicyTier,
}

#[verifier::ext_equal]
pub struct PlanView {
    pub flow_id: FlowId,
    pub action: ExecutionView,
    pub matched_rule: Option<RuleId>,
    pub tier: PolicyTier,
}

impl Clone for ExecutionPlan {
    fn clone(&self) -> (r: ExecutionPlan)
        ensures
            r@ == self@,
    {
        ExecutionPlan {
            flow_id: self.flow_id,
            action: self.action.clone(),
            matched_rule: self.matched_rule,
            tier: self.tier,
        }
    }
}

impl View for ExecutionPlan {
    type V = PlanView;

    open spec fn view(&self) -> PlanView {
        PlanView {
            flow_id: self.flow_id,
            action: self.action@,
            matched_rule: self.matched_rule,
            tier: self.tier,
        }
    }
}

/// The name of an endpoint has 1 to 64 characters, each a letter, a digit, a dot, a hyphen or
/// an underscore, and a name keeps its text.
pub proof fn law_endpoint_names_are_short_words(value: &str, r: Result<EndpointId, EndpointIdError>)
    requires
        call_ensures(EndpointId::new, (value,), r),
    ensures
        r is Ok <==> 1 <= value@.len() <= 64 && forall|i: int|
            0 <= i < value@.len() ==> {
                let c = #[trigger] value@[i];
                ||| '0' <= c <= '9'
                ||| 'A' <= c <= 'Z'
                ||| 'a' <= c <= 'z'
                ||| c == '.' || c == '-' || c == '_'
            },
        r matches Ok(id) ==> id@ == value@,
{
    if is_endpoint_id(value@) {
        assert forall|i: int| 0 <= i < value@.len() implies is_id_char(#[trigger] value@[i]) by {}
    }
}

} // verus!
