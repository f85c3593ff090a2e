//! From a canonical flow to an execution plan.

use crate::flow::{FlowContext, FlowView};
use crate::plan::{ExecutionAction, ExecutionPlan, ExecutionView, PlanView};
use crate::policy::{ActionView, EngineView, PolicyAction, PolicyEngine};
use vstd::prelude::*;

verus! {

/// The runtime boundary: canonical flow in, immutable execution plan out.
///
/// Network I/O is not performed here. Platform and transport executors consume
/// the plan without gaining policy authority themselves.
#[derive(Debug)]
pub struct Runtime {
    policy: PolicyEngine,
}

impl View for Runtime {
    type V = EngineView;

    closed spec fn view(&self) -> EngineView {
        self.policy@
    }
}

impl Clone for Runtime {
    fn clone(&self) -> (r: Runtime)
        ensures
            r@ == self@,
    {
        Runtime { policy: self.policy.clone() }
    }
}

pub open spec fn execution(action: ActionView) -> ExecutionView {
    match action {
        ActionView::Route(endpoint) => ExecutionView::Route { endpoint },
        ActionView::Reject(reason) => ExecutionView::Reject { reason },
    }
}

/// The plan that a policy makes for a flow.
pub open spec fn plan_of(policy: EngineView, flow: FlowView) -> PlanView {
    let d = policy.decides(flow);
    PlanView {
        flow_id: flow.id,
        action: execution(d.action),
        matched_rule: d.rule_id,
        tier: d.tier,
    }
}

impl Runtime {
    pub fn new(policy: PolicyEngine) -> (r: Runtime)
        ensures
            r@ == policy@,
    {
        Runtime { policy }
    }

    pub fn plan(&self, flow: &FlowContext) -> (r: ExecutionPlan)
        ensures
            r@ == plan_of(self@, flow@),
    {
        let decision = self.policy.decide(flow);
        let action = match decision.action {
            PolicyAction::Route(endpoint) => ExecutionAction::Route { endpoint },
            PolicyAction::Reject(reason) => ExecutionAction::Reject { reason },
        };
        ExecutionPlan {
            flow_id: flow.id,
            action,
            matched_rule: decision.rule_id,
            tier: decision.tier,
        }
    }
}

/// A rejection stays an action: a plan routes to an endpoint exactly where the
/// policy decided on that route, and rejects exactly where the policy rejected.
pub proof fn law_reject_is_never_an_endpoint(policy: EngineView, flow: FlowView)
    ensures
        plan_of(policy, flow).action is Route <==> policy.decides(flow).action is Route,
        plan_of(policy, flow).action matches ExecutionView::Route { endpoint }
            ==> policy.decides(flow).action == ActionView::Route(endpoint),
        plan_of(policy, flow).action matches ExecutionView::Reject { reason }
            ==> policy.decides(flow).action == ActionView::Reject(reason),
{
}

/// A plan carries out the decision for its flow, and says which flow and which rule it
/// is about.
pub proof fn law_plan_reports_its_decision(policy: EngineView, flow: FlowView)
    ensures
        ({
            let plan = plan_of(policy, flow);
            let d = policy.decides(flow);
            &&& plan.flow_id == flow.id
            &&& plan.matched_rule == d.rule_id
            &&& plan.tier == d.tier
            &&& plan.action is Reject <==> d.action is Reject
        }),
{
}

} // verus!
