//! Reconciliation: bringing the store to a desired rule set with as few
//! backend calls as it takes. Rules that the set does not ask for are
//! retracted, rules that the store lacks are installed, and a record whose
//! address the set asks to block is left as it is.

use crate::address::IpNet;
use crate::codec::RuleEntryView;
use crate::gateway::BackendEvent;
use crate::model::{has_ip, ip_position, EntryView, RuleDraft, StoreView};
use crate::protocol::{install_model, retract_model};
use crate::record::{RuleAction, RuleRecordView, RuleState};
use vstd::prelude::*;

verus! {

/// The desired set asks for a block on `ip`.
pub open spec fn wanted(desired: Seq<RuleEntryView>, ip: IpNet) -> bool {
    exists|i: int|
        0 <= i < desired.len() && (#[trigger] desired[i]).ip == ip && desired[i].action
            == RuleAction::Block
}

/// The addresses of the active records that the desired set does not ask
/// for, in the order of the store.
pub open spec fn stale_ips(entries: Seq<EntryView>, desired: Seq<RuleEntryView>) -> Seq<IpNet>
    decreases entries.len(),
{
    if entries.len() == 0 {
        Seq::empty()
    } else {
        let before = stale_ips(entries.drop_last(), desired);
        let e = entries.last();
        if e.record.state == RuleState::Active && !wanted(desired, e.record.ip) {
            before.push(e.record.ip)
        } else {
            before
        }
    }
}

/// The rule that an entry of a file asks for.
pub open spec fn draft_of(e: RuleEntryView) -> RuleDraft {
    RuleDraft {
        ip: e.ip,
        reason: e.reason,
        created_at: e.created_at,
        expires_at: e.expires_at,
        origin: e.origin,
    }
}

/// One step of a reconciliation.
pub enum PlanStep {
    /// The rule for `ip` is retracted, if the store holds an active one.
    Retract { ip: IpNet },
    /// The rule of `entry` is installed, if it is a block and its address
    /// has no record.
    Install { entry: RuleEntryView },
}

/// What a reconciliation has come to so far.
pub struct ReconcileRun {
    pub store: StoreView,
    /// How many backend calls were made.
    pub used: nat,
    pub valid: bool,
    /// The records whose rules were retracted.
    pub retracted: Seq<RuleRecordView>,
    /// The identifiers of the records installed.
    pub installed: Seq<u64>,
    /// The addresses whose step failed: the backend refused, or the store
    /// had no identifier left.
    pub failed: Seq<IpNet>,
}

/// A reconciliation before its first step.
pub open spec fn start_run(v: StoreView) -> ReconcileRun {
    ReconcileRun {
        store: v,
        used: 0,
        valid: true,
        retracted: Seq::empty(),
        installed: Seq::empty(),
        failed: Seq::empty(),
    }
}

/// A retraction is due: the address has an active record.
pub open spec fn retract_due(v: StoreView, ip: IpNet) -> bool {
    has_ip(v.entries, ip) && v.entries[ip_position(v.entries, ip)].record.state
        == RuleState::Active
}

/// An installation is due: the entry is a block and its address has no
/// record.
pub open spec fn install_due(v: StoreView, entry: RuleEntryView) -> bool {
    entry.action == RuleAction::Block && !has_ip(v.entries, entry.ip)
}

/// The run after one more step, which makes a backend call where it is due
/// and changes nothing where it is not. A step that fails is noted and the
/// run goes on.
pub open spec fn plan_step(
    run: ReconcileRun,
    step: PlanStep,
    events: Seq<BackendEvent>,
) -> ReconcileRun {
    let v = run.store;
    match step {
        PlanStep::Retract { ip } => if retract_due(v, ip) {
            let k = ip_position(v.entries, ip);
            let m = retract_model(v, k, events, run.used);
            match m.result {
                Ok(_) => ReconcileRun {
                    store: m.store,
                    used: m.used,
                    valid: run.valid && m.valid,
                    retracted: run.retracted.push(
                        v.entries[k].record.with_state(RuleState::Removed),
                    ),
                    ..run
                },
                Err(_) => ReconcileRun {
                    store: m.store,
                    used: m.used,
                    valid: run.valid && m.valid,
                    failed: run.failed.push(ip),
                    ..run
                },
            }
        } else {
            run
        },
        PlanStep::Install { entry } => if install_due(v, entry) {
            if v.next_id == u64::MAX {
                ReconcileRun { failed: run.failed.push(entry.ip), ..run }
            } else {
                let m = install_model(v, draft_of(entry), events, run.used);
                match m.result {
                    Ok(id) => ReconcileRun {
                        store: m.store,
                        used: m.used,
                        valid: run.valid && m.valid,
                        installed: run.installed.push(id),
                        ..run
                    },
                    Err(_) => ReconcileRun {
                        store: m.store,
                        used: m.used,
                        valid: run.valid && m.valid,
                        failed: run.failed.push(entry.ip),
                        ..run
                    },
                }
            }
        } else {
            run
        },
    }
}

/// The run after the steps of a plan, in their order.
pub open spec fn run_plan(
    v: StoreView,
    plan: Seq<PlanStep>,
    events: Seq<BackendEvent>,
) -> ReconcileRun
    decreases plan.len(),
{
    if plan.len() == 0 {
        start_run(v)
    } else {
        plan_step(run_plan(v, plan.drop_last(), events), plan.last(), events)
    }
}

/// The retractions of a plan.
pub open spec fn retract_steps(ips: Seq<IpNet>) -> Seq<PlanStep> {
    Seq::new(ips.len(), |i: int| PlanStep::Retract { ip: ips[i] })
}

/// The installations of a plan.
pub open spec fn install_steps(desired: Seq<RuleEntryView>) -> Seq<PlanStep> {
    Seq::new(desired.len(), |i: int| PlanStep::Install { entry: desired[i] })
}

/// The plan that brings the store to the desired set: first the retraction of
/// each active record that the set does not ask for, then the installation
/// of each entry of the set.
pub open spec fn plan_for(v: StoreView, desired: Seq<RuleEntryView>) -> Seq<PlanStep> {
    retract_steps(stale_ips(v.entries, desired)) + install_steps(desired)
}

/// What a reconciliation comes to.
pub open spec fn reconcile_model(
    v: StoreView,
    desired: Seq<RuleEntryView>,
    events: Seq<BackendEvent>,
) -> ReconcileRun {
    run_plan(v, plan_for(v, desired), events)
}

/// A run uses no more calls than were made, while it is valid.
pub proof fn lemma_run_used(v: StoreView, plan: Seq<PlanStep>, events: Seq<BackendEvent>)
    requires
        run_plan(v, plan, events).valid,
    ensures
        run_plan(v, plan, events).used <= events.len(),
        plan.len() > 0 ==> run_plan(v, plan.drop_last(), events).valid,
    decreases plan.len(),
{
    if plan.len() > 0 {
        lemma_run_used(v, plan.drop_last(), events);
    }
}

/// A run depends on the calls it uses and on no later one.
pub proof fn lemma_run_prefix(
    v: StoreView,
    plan: Seq<PlanStep>,
    before: Seq<BackendEvent>,
    after: Seq<BackendEvent>,
)
    requires
        before.is_prefix_of(after),
        run_plan(v, plan, before).valid,
    ensures
        run_plan(v, plan, after) == run_plan(v, plan, before),
    decreases plan.len(),
{
    if plan.len() > 0 {
        lemma_run_used(v, plan, before);
        lemma_run_prefix(v, plan.drop_last(), before, after);
        let r = run_plan(v, plan.drop_last(), before);
        if r.used < before.len() {
            assert(after[r.used as int] == before[r.used as int]);
        }
    }
}

} // verus!
