//! Reconciliation is a merge. A record whose address the desired set asks to
//! block stays as it is, with its identifier and its timer; and where no step
//! fails, the store ends up with a record for exactly the addresses that the
//! set asks to block.

use crate::address::IpNet;
use crate::codec::RuleEntryView;
use crate::gateway::BackendEvent;
use crate::guarantees::{
    lemma_install_keeps_invariant, lemma_plan_step_keeps_invariant,
    lemma_retract_keeps_invariant,
};
use crate::model::{has_ip, ip_position, lemma_ip_position, EntryView, RuleDraft, StoreView};
use crate::protocol::{apply_result, install_model, lemma_entered_last, retract_model};
use crate::reconcile::{
    draft_of, install_due, install_steps, plan_for, plan_step, reconcile_model, retract_due,
    retract_steps, run_plan, stale_ips, wanted, PlanStep, ReconcileRun,
};
use crate::record::{RuleAction, RuleState};
use crate::scheduler::{deadline_of, has_id, lemma_with_timer, lemma_without_id, Timer};
use vstd::prelude::*;

verus! {

/// The record that the store holds for an address, if it holds one.
pub open spec fn rule_of(v: StoreView, ip: IpNet) -> Option<EntryView> {
    if has_ip(v.entries, ip) {
        Some(v.entries[ip_position(v.entries, ip)])
    } else {
        None
    }
}

/// The deadline of the timer of a rule, if it has one.
pub open spec fn timer_of(v: StoreView, id: u64) -> Option<u64> {
    if has_id(v.timers, id) {
        Some(deadline_of(v.timers, id))
    } else {
        None
    }
}

/// The address that a step is about.
pub open spec fn step_ip(step: PlanStep) -> IpNet {
    match step {
        PlanStep::Retract { ip } => ip,
        PlanStep::Install { entry } => entry.ip,
    }
}

/// Some entry of the first `upto` of the desired set asks for a block on `ip`.
pub open spec fn wanted_before(desired: Seq<RuleEntryView>, upto: int, ip: IpNet) -> bool {
    exists|i: int|
        0 <= i < upto && i < desired.len() && (#[trigger] desired[i]).ip == ip
            && desired[i].action == RuleAction::Block
}

/// The record at `k` is the record of its address.
proof fn lemma_rule_at(v: StoreView, k: int)
    requires
        v.wf(),
        0 <= k < v.entries.len(),
    ensures
        rule_of(v, v.entries[k].record.ip) == Some(v.entries[k]),
{
    lemma_ip_position(v, v.entries[k].record.ip, k);
}

/// Taking a record out leaves the records of the other addresses as they
/// are.
proof fn lemma_removed_frame(v: StoreView, w: StoreView, k: int, ip: IpNet)
    requires
        v.wf(),
        w.wf(),
        0 <= k < v.entries.len(),
        w.entries == v.entries.remove(k),
        ip != v.entries[k].record.ip,
    ensures
        rule_of(w, ip) == rule_of(v, ip),
{
    if has_ip(v.entries, ip) {
        let p = ip_position(v.entries, ip);
        let q = if p < k {
            p
        } else {
            p - 1
        };
        assert(w.entries[q] == v.entries[p]);
        lemma_ip_position(w, ip, q);
    }
    if has_ip(w.entries, ip) {
        let q = ip_position(w.entries, ip);
        let p = if q < k {
            q
        } else {
            q + 1
        };
        assert(v.entries[p] == w.entries[q]);
        lemma_ip_position(v, ip, p);
    }
}

/// Putting a record last leaves the records of the other addresses as they
/// are.
proof fn lemma_pushed_frame(v: StoreView, w: StoreView, ip: IpNet)
    requires
        v.wf(),
        w.wf(),
        w.entries.len() == v.entries.len() + 1,
        w.entries.drop_last() == v.entries,
        ip != w.entries.last().record.ip,
    ensures
        rule_of(w, ip) == rule_of(v, ip),
{
    if has_ip(v.entries, ip) {
        let p = ip_position(v.entries, ip);
        assert(w.entries[p] == w.entries.drop_last()[p]);
        lemma_ip_position(w, ip, p);
    }
    if has_ip(w.entries, ip) {
        let q = ip_position(w.entries, ip);
        assert(q < v.entries.len());
        assert(w.entries[q] == w.entries.drop_last()[q]);
        lemma_ip_position(v, ip, q);
    }
}

/// A retraction leaves the records and the timers of the other rules as
/// they are.
proof fn lemma_retract_frame(
    v: StoreView,
    k: int,
    events: Seq<BackendEvent>,
    at: nat,
    ip: IpNet,
    id: u64,
)
    requires
        v.wf(),
        0 <= k < v.entries.len(),
    ensures
        ip != v.entries[k].record.ip ==> rule_of(retract_model(v, k, events, at).store, ip)
            == rule_of(v, ip),
        id != v.entries[k].record.id ==> timer_of(retract_model(v, k, events, at).store, id)
            == timer_of(v, id),
{
    let e = v.entries[k];
    let m = retract_model(v, k, events, at);
    lemma_retract_keeps_invariant(v, k, events, at);
    assert(crate::model::entry_ok(e));
    lemma_without_id(v.timers, e.record.id);
    if m.result is Ok {
        if ip != e.record.ip {
            lemma_removed_frame(v, m.store, k, ip);
        }
    }
}

/// An installation leaves the records and the timers of the other rules as
/// they are.
proof fn lemma_install_frame(
    v: StoreView,
    draft: RuleDraft,
    events: Seq<BackendEvent>,
    at: nat,
    ip: IpNet,
    id: u64,
)
    requires
        v.wf(),
        draft.ip.wf(),
        !has_ip(v.entries, draft.ip),
        v.next_id < u64::MAX,
    ensures
        ip != draft.ip ==> rule_of(install_model(v, draft, events, at).store, ip) == rule_of(
            v,
            ip,
        ),
        id != v.next_id ==> timer_of(install_model(v, draft, events, at).store, id) == timer_of(
            v,
            id,
        ),
{
    let m = install_model(v, draft, events, at);
    let k = v.entries.len() as int;
    lemma_install_keeps_invariant(v, draft, events, at);
    lemma_entered_last(v, draft);
    let u = v.enter(draft);
    if has_id(v.timers, v.next_id) {
        let p = crate::model::rule_position(v.entries, v.next_id);
        assert(v.entries[p].record.id < v.next_id);
    }
    lemma_without_id(u.timers, v.next_id);
    match apply_result(events[at as int]) {
        Ok(h) => {
            match draft.expires_at {
                Some(deadline) => {
                    lemma_with_timer(u.timers, Timer { deadline, id: v.next_id });
                },
                None => {},
            }
            if ip != draft.ip {
                lemma_pushed_frame(v, m.store, ip);
            }
        },
        Err(_) => {},
    }
}

/// A step leaves the records of the addresses that it is not about as they
/// are, and the timers of their rules.
proof fn lemma_step_frame(run: ReconcileRun, step: PlanStep, events: Seq<BackendEvent>, ip: IpNet)
    requires
        run.store.wf(),
        step matches PlanStep::Install { entry } ==> entry.ip.wf(),
        ip != step_ip(step),
    ensures
        plan_step(run, step, events).store.wf(),
        rule_of(plan_step(run, step, events).store, ip) == rule_of(run.store, ip),
        rule_of(run.store, ip) matches Some(e) ==> timer_of(
            plan_step(run, step, events).store,
            e.record.id,
        ) == timer_of(run.store, e.record.id),
{
    let v = run.store;
    lemma_plan_step_keeps_invariant(run, step, events);
    let id = match rule_of(v, ip) {
        Some(e) => e.record.id,
        None => 0,
    };
    match step {
        PlanStep::Retract { ip: target } => {
            if retract_due(v, target) {
                let k = ip_position(v.entries, target);
                lemma_retract_frame(v, k, events, run.used, ip, id);
                if has_ip(v.entries, ip) {
                    let p = ip_position(v.entries, ip);
                    if p < k {
                        assert(v.entries[p].record.id < v.entries[k].record.id);
                    } else if k < p {
                        assert(v.entries[k].record.id < v.entries[p].record.id);
                    }
                }
            }
        },
        PlanStep::Install { entry } => {
            if install_due(v, entry) && v.next_id < u64::MAX {
                lemma_install_frame(v, draft_of(entry), events, run.used, ip, id);
                if has_ip(v.entries, ip) {
                    let p = ip_position(v.entries, ip);
                    assert(v.entries[p].record.id < v.next_id);
                }
            }
        },
    }
}

/// What the stale addresses are: those of the active records that the desired
/// set does not ask for, each once.
proof fn lemma_stale_ips(entries: Seq<EntryView>, desired: Seq<RuleEntryView>)
    requires
        forall|i: int, j: int|
            0 <= i < j < entries.len() ==> (#[trigger] entries[i]).record.ip != (
            #[trigger] entries[j]).record.ip,
    ensures
        forall|ip: IpNet| #[trigger]
            stale_ips(entries, desired).contains(ip) <==> has_ip(entries, ip) && entries[ip_position(
                entries,
                ip,
            )].record.state == RuleState::Active && !wanted(desired, ip),
        forall|a: int, b: int|
            0 <= a < b < stale_ips(entries, desired).len() ==> stale_ips(entries, desired)[a]
                != stale_ips(entries, desired)[b],
    decreases entries.len(),
{
    let stale = stale_ips(entries, desired);
    if entries.len() == 0 {
        assert forall|ip: IpNet| #[trigger] stale.contains(ip) <==> has_ip(entries, ip)
            && entries[ip_position(entries, ip)].record.state == RuleState::Active && !wanted(
            desired,
            ip,
        ) by {}
    } else {
        let init = entries.drop_last();
        let last = entries.last();
        let before = stale_ips(init, desired);
        assert forall|i: int, j: int| 0 <= i < j < init.len() implies (
        #[trigger] init[i]).record.ip != (#[trigger] init[j]).record.ip by {
            assert(init[i] == entries[i] && init[j] == entries[j]);
        }
        lemma_stale_ips(init, desired);
        let takes = last.record.state == RuleState::Active && !wanted(desired, last.record.ip);
        assert(!has_ip(init, last.record.ip)) by {
            if has_ip(init, last.record.ip) {
                let p = ip_position(init, last.record.ip);
                assert(init[p] == entries[p]);
                assert(entries[p].record.ip != entries[entries.len() - 1].record.ip);
            }
        }
        assert forall|ip: IpNet| #[trigger] stale.contains(ip) <==> has_ip(entries, ip)
            && entries[ip_position(entries, ip)].record.state == RuleState::Active && !wanted(
            desired,
            ip,
        ) by {
            let n = entries.len() - 1;
            if has_ip(entries, ip) {
                let p = ip_position(entries, ip);
                if p < n {
                    assert(init[p] == entries[p]);
                    assert(has_ip(init, ip));
                    let q = ip_position(init, ip);
                    assert(init[q] == entries[q]);
                    if q < p {
                        assert(entries[q].record.ip != entries[p].record.ip);
                    } else if p < q {
                        assert(entries[p].record.ip != entries[q].record.ip);
                    }
                }
            }
            if has_ip(init, ip) {
                let q = ip_position(init, ip);
                assert(entries[q] == init[q]);
                assert(has_ip(entries, ip));
            }
            if stale.contains(ip) {
                let a = choose|a: int| 0 <= a < stale.len() && stale[a] == ip;
                if takes && a == before.len() {
                    assert(entries[n].record.ip == ip);
                    assert(has_ip(entries, ip));
                    let p = ip_position(entries, ip);
                    if p < n {
                        assert(entries[p].record.ip != entries[n].record.ip);
                    }
                } else {
                    assert(before[a] == ip);
                    assert(before.contains(ip));
                }
            }
            if has_ip(entries, ip) && entries[ip_position(entries, ip)].record.state
                == RuleState::Active && !wanted(desired, ip) {
                let p = ip_position(entries, ip);
                if p == n {
                    assert(stale[before.len() as int] == ip);
                } else {
                    assert(before.contains(ip));
                    let a = choose|a: int| 0 <= a < before.len() && before[a] == ip;
                    assert(stale[a] == ip);
                }
            }
        }
        assert forall|a: int, b: int| 0 <= a < b < stale.len() implies stale[a] != stale[b] by {
            if takes && b == before.len() {
                assert(before[a] == stale[a]);
                assert(before.contains(stale[a]));
                assert(has_ip(init, stale[a]));
            } else {
                assert(before[a] != before[b]);
            }
        }
    }
}

/// A run that ends without a failure had none on its way.
proof fn lemma_failed_prefix(v: StoreView, plan: Seq<PlanStep>, events: Seq<BackendEvent>, j: int)
    requires
        0 <= j <= plan.len(),
    ensures
        run_plan(v, plan.take(j), events).failed.len() <= run_plan(v, plan, events).failed.len(),
    decreases plan.len() - j,
{
    if j == plan.len() {
        assert(plan.take(j) =~= plan);
    } else {
        lemma_failed_prefix(v, plan, events, j + 1);
        let next = plan.take(j + 1);
        assert(next.drop_last() =~= plan.take(j));
    }
}

/// The steps of a plan are about well-formed addresses where the desired
/// entries are.
proof fn lemma_plan_addresses(v: StoreView, desired: Seq<RuleEntryView>, j: int)
    requires
        forall|i: int| 0 <= i < desired.len() ==> (#[trigger] desired[i]).ip.wf(),
        0 <= j <= plan_for(v, desired).len(),
    ensures
        forall|i: int|
            0 <= i < plan_for(v, desired).take(j).len() ==> ((#[trigger] plan_for(
                v,
                desired,
            ).take(j)[i]) matches PlanStep::Install { entry } ==> entry.ip.wf()),
{
    let plan = plan_for(v, desired);
    let first = retract_steps(stale_ips(v.entries, desired));
    assert forall|i: int| 0 <= i < plan.take(j).len() implies ((#[trigger] plan.take(
        j,
    )[i]) matches PlanStep::Install { entry } ==> entry.ip.wf()) by {
        if i >= first.len() {
            assert(plan[i] == install_steps(desired)[i - first.len()]);
            assert(desired[i - first.len()].ip.wf());
        } else {
            assert(plan[i] == first[i]);
        }
    }
}

/// After any number of steps of a reconciliation, a record whose address the
/// desired set asks to block is as it was, and so is its timer.
proof fn lemma_wanted_kept_upto(
    v: StoreView,
    desired: Seq<RuleEntryView>,
    events: Seq<BackendEvent>,
    ip: IpNet,
    j: int,
)
    requires
        v.wf(),
        forall|i: int| 0 <= i < desired.len() ==> (#[trigger] desired[i]).ip.wf(),
        wanted(desired, ip),
        has_ip(v.entries, ip),
        0 <= j <= plan_for(v, desired).len(),
    ensures
        ({
            let w = run_plan(v, plan_for(v, desired).take(j), events).store;
            let id = v.entries[ip_position(v.entries, ip)].record.id;
            &&& w.wf()
            &&& rule_of(w, ip) == rule_of(v, ip)
            &&& timer_of(w, id) == timer_of(v, id)
        }),
    decreases j,
{
    let plan = plan_for(v, desired);
    if j == 0 {
        assert(plan.take(0) =~= Seq::<PlanStep>::empty());
    } else {
        lemma_wanted_kept_upto(v, desired, events, ip, j - 1);
        let next = plan.take(j);
        assert(next.drop_last() =~= plan.take(j - 1));
        assert(next.last() == plan[j - 1]);
        let run = run_plan(v, plan.take(j - 1), events);
        let step = plan[j - 1];
        let stale = stale_ips(v.entries, desired);
        let first = retract_steps(stale);
        lemma_plan_addresses(v, desired, j);
        assert(next[j - 1] == step);
        lemma_plan_step_keeps_invariant(run, step, events);
        if j - 1 < first.len() {
            assert(step == first[j - 1]);
            assert(step == PlanStep::Retract { ip: stale[j - 1] });
            assert forall|i: int, k: int| 0 <= i < k < v.entries.len() implies (
            #[trigger] v.entries[i]).record.ip != (#[trigger] v.entries[k]).record.ip by {}
            lemma_stale_ips(v.entries, desired);
            assert(stale.contains(stale[j - 1]));
            assert(stale[j - 1] != ip);
            lemma_step_frame(run, step, events, ip);
        } else {
            assert(step == install_steps(desired)[j - 1 - first.len()]);
            let entry = desired[j - 1 - first.len()];
            if entry.ip == ip {
                assert(!install_due(run.store, entry));
            } else {
                lemma_step_frame(run, step, events, ip);
            }
        }
    }
}

/// A backend call of a reconciliation: what it asks for, and for which
/// address.
pub enum CallView {
    /// The retraction of the rule of `ip`, which the backend knows as
    /// `handle`.
    Retract { ip: IpNet, handle: Option<Seq<char>> },
    /// The application of a rule for `ip`.
    Apply { ip: IpNet, reason: Option<Seq<char>> },
}

/// The address that a call is made for.
pub open spec fn call_ip(call: CallView) -> IpNet {
    match call {
        CallView::Retract { ip, .. } => ip,
        CallView::Apply { ip, .. } => ip,
    }
}

/// The event records the call.
pub open spec fn records_call(ev: BackendEvent, call: CallView) -> bool {
    match call {
        CallView::Retract { handle, .. } => ev matches BackendEvent::Retract { handle: h, .. }
            && Some(h) == handle,
        CallView::Apply { ip, reason } => ev matches BackendEvent::ApplyBlock {
            ip: i,
            reason: r,
            ..
        } && i == ip && r == reason,
    }
}

/// The backend call that a step makes, if it makes one: a retraction that is
/// due, or an installation that is due while the store has an identifier
/// left.
pub open spec fn step_call(run: ReconcileRun, step: PlanStep) -> Option<CallView> {
    let v = run.store;
    match step {
        PlanStep::Retract { ip } => if retract_due(v, ip) {
            Some(CallView::Retract { ip, handle: v.entries[ip_position(v.entries, ip)].handle })
        } else {
            None
        },
        PlanStep::Install { entry } => if install_due(v, entry) && v.next_id < u64::MAX {
            Some(CallView::Apply { ip: entry.ip, reason: entry.reason })
        } else {
            None
        },
    }
}

/// The backend calls that the steps of a plan make, in their order.
pub open spec fn calls_of(v: StoreView, plan: Seq<PlanStep>, events: Seq<BackendEvent>) -> Seq<
    CallView,
>
    decreases plan.len(),
{
    if plan.len() == 0 {
        Seq::empty()
    } else {
        let before = calls_of(v, plan.drop_last(), events);
        match step_call(run_plan(v, plan.drop_last(), events), plan.last()) {
            Some(call) => before.push(call),
            None => before,
        }
    }
}

/// The calls that a run counts are the calls that its steps make, and where
/// the run is valid, the events are the records of those calls, one for one.
pub proof fn lemma_calls_of_run(v: StoreView, plan: Seq<PlanStep>, events: Seq<BackendEvent>)
    ensures
        calls_of(v, plan, events).len() == run_plan(v, plan, events).used,
        run_plan(v, plan, events).valid ==> forall|c: int|
            0 <= c < calls_of(v, plan, events).len() ==> records_call(
                events[c],
                #[trigger] calls_of(v, plan, events)[c],
            ),
    decreases plan.len(),
{
    if plan.len() > 0 {
        let init = plan.drop_last();
        lemma_calls_of_run(v, init, events);
        let run = run_plan(v, init, events);
        let before = calls_of(v, init, events);
        let after = calls_of(v, plan, events);
        if run_plan(v, plan, events).valid {
            assert(run.valid);
            assert forall|c: int| 0 <= c < after.len() implies records_call(
                events[c],
                #[trigger] after[c],
            ) by {
                if c < before.len() {
                    assert(after[c] == before[c]);
                }
            }
        }
    }
}

/// After any number of steps of a reconciliation, none of the calls made was
/// for an address that has a record and that the desired set asks to block.
proof fn lemma_no_call_upto(
    v: StoreView,
    desired: Seq<RuleEntryView>,
    events: Seq<BackendEvent>,
    ip: IpNet,
    j: int,
)
    requires
        v.wf(),
        forall|i: int| 0 <= i < desired.len() ==> (#[trigger] desired[i]).ip.wf(),
        wanted(desired, ip),
        has_ip(v.entries, ip),
        0 <= j <= plan_for(v, desired).len(),
    ensures
        forall|c: int|
            0 <= c < calls_of(v, plan_for(v, desired).take(j), events).len() ==> call_ip(
                #[trigger] calls_of(v, plan_for(v, desired).take(j), events)[c],
            ) != ip,
    decreases j,
{
    let plan = plan_for(v, desired);
    if j == 0 {
        assert(plan.take(0) =~= Seq::<PlanStep>::empty());
    } else {
        lemma_no_call_upto(v, desired, events, ip, j - 1);
        lemma_wanted_kept_upto(v, desired, events, ip, j - 1);
        let next = plan.take(j);
        assert(next.drop_last() =~= plan.take(j - 1));
        assert(next.last() == plan[j - 1]);
        let run = run_plan(v, plan.take(j - 1), events);
        let step = plan[j - 1];
        let stale = stale_ips(v.entries, desired);
        let first = retract_steps(stale);
        let before = calls_of(v, plan.take(j - 1), events);
        let after = calls_of(v, next, events);
        assert(has_ip(run.store.entries, ip));
        if j - 1 < first.len() {
            assert(step == first[j - 1]);
            assert(step == PlanStep::Retract { ip: stale[j - 1] });
            assert forall|i: int, k: int| 0 <= i < k < v.entries.len() implies (
            #[trigger] v.entries[i]).record.ip != (#[trigger] v.entries[k]).record.ip by {}
            lemma_stale_ips(v.entries, desired);
            assert(stale.contains(stale[j - 1]));
            assert(stale[j - 1] != ip);
        } else {
            assert(step == install_steps(desired)[j - 1 - first.len()]);
            let entry = desired[j - 1 - first.len()];
            if entry.ip == ip {
                assert(!install_due(run.store, entry));
            }
        }
        assert forall|c: int| 0 <= c < after.len() implies call_ip(#[trigger] after[c]) != ip by {
            if c < before.len() {
                assert(after[c] == before[c]);
            }
        }
    }
}

/// Merge. A reconciliation leaves a record whose address the desired set
/// asks to block as it is: the same identifier, the same time of creation,
/// the same reason, the same state, and the same timer. It makes no backend
/// call for that address: its rule is neither retracted nor applied again.
pub proof fn lemma_reconcile_keeps_wanted(
    v: StoreView,
    desired: Seq<RuleEntryView>,
    events: Seq<BackendEvent>,
    ip: IpNet,
)
    requires
        v.wf(),
        forall|i: int| 0 <= i < desired.len() ==> (#[trigger] desired[i]).ip.wf(),
        wanted(desired, ip),
        has_ip(v.entries, ip),
    ensures
        ({
            let w = reconcile_model(v, desired, events).store;
            let id = v.entries[ip_position(v.entries, ip)].record.id;
            &&& w.wf()
            &&& rule_of(w, ip) == rule_of(v, ip)
            &&& timer_of(w, id) == timer_of(v, id)
        }),
        forall|c: int|
            0 <= c < calls_of(v, plan_for(v, desired), events).len() ==> call_ip(
                #[trigger] calls_of(v, plan_for(v, desired), events)[c],
            ) != ip,
{
    let plan = plan_for(v, desired);
    lemma_wanted_kept_upto(v, desired, events, ip, plan.len() as int);
    lemma_no_call_upto(v, desired, events, ip, plan.len() as int);
    assert(plan.take(plan.len() as int) =~= plan);
}

/// Whether an address has a record after the first `j` steps of a
/// reconciliation in which no step fails: it had one that was not retracted
/// yet, or one of the entries taken up so far asks to block it.
pub open spec fn present_after(
    v: StoreView,
    desired: Seq<RuleEntryView>,
    j: int,
    ip: IpNet,
) -> bool {
    let stale = stale_ips(v.entries, desired);
    let retracted = if j < stale.len() {
        stale.take(j)
    } else {
        stale
    };
    ||| has_ip(v.entries, ip) && !retracted.contains(ip)
    ||| wanted_before(desired, j - stale.len(), ip)
}

/// After any number of steps of a reconciliation in which no step fails,
/// the store is at rest and holds a record for the addresses that
/// `present_after` names.
proof fn lemma_reached_upto(
    v: StoreView,
    desired: Seq<RuleEntryView>,
    events: Seq<BackendEvent>,
    j: int,
)
    requires
        v.wf(),
        v.at_rest(),
        forall|i: int| 0 <= i < desired.len() ==> (#[trigger] desired[i]).ip.wf(),
        reconcile_model(v, desired, events).failed.len() == 0,
        0 <= j <= plan_for(v, desired).len(),
    ensures
        ({
            let r = run_plan(v, plan_for(v, desired).take(j), events);
            &&& r.store.wf()
            &&& r.store.at_rest()
            &&& r.failed.len() == 0
            &&& forall|ip: IpNet| #[trigger]
                has_ip(r.store.entries, ip) <==> present_after(v, desired, j, ip)
        }),
    decreases j,
{
    let plan = plan_for(v, desired);
    let stale = stale_ips(v.entries, desired);
    let first = retract_steps(stale);
    lemma_failed_prefix(v, plan, events, j);
    if j == 0 {
        assert(plan.take(0) =~= Seq::<PlanStep>::empty());
        assert(stale.take(0) =~= Seq::<IpNet>::empty());
        assert forall|ip: IpNet| #[trigger] has_ip(v.entries, ip) <==> present_after(
            v,
            desired,
            0,
            ip,
        ) by {
            if stale.len() == 0 {
                assert(!stale.contains(ip));
            }
        }
    } else {
        lemma_reached_upto(v, desired, events, j - 1);
        let next = plan.take(j);
        assert(next.drop_last() =~= plan.take(j - 1));
        assert(next.last() == plan[j - 1]);
        let run = run_plan(v, plan.take(j - 1), events);
        let step = plan[j - 1];
        let after = plan_step(run, step, events);
        let u = run.store;
        let w = after.store;
        lemma_plan_addresses(v, desired, j);
        assert(next[j - 1] == step);
        lemma_plan_step_keeps_invariant(run, step, events);
        assert forall|i: int, k: int| 0 <= i < k < v.entries.len() implies (
        #[trigger] v.entries[i]).record.ip != (#[trigger] v.entries[k]).record.ip by {}
        lemma_stale_ips(v.entries, desired);
        if j - 1 < first.len() {
            let t = stale[j - 1];
            assert(step == first[j - 1]);
            assert(step == PlanStep::Retract { ip: t });
            assert(stale.contains(t));
            let done = stale.take(j - 1);
            assert(!done.contains(t)) by {
                if done.contains(t) {
                    let a = choose|a: int| 0 <= a < done.len() && done[a] == t;
                    assert(stale[a] != stale[j - 1]);
                }
            }
            assert(present_after(v, desired, j - 1, t));
            assert(has_ip(u.entries, t));
            let k = ip_position(u.entries, t);
            assert(u.entries[k].record.state == RuleState::Active);
            lemma_retract_keeps_invariant(u, k, events, run.used);
            let m = retract_model(u, k, events, run.used);
            assert(m.result is Ok) by {
                if m.result is Err {
                    assert(after.failed.len() == run.failed.len() + 1);
                }
            }
            assert(w.entries == u.entries.remove(k));
            assert forall|i: int| 0 <= i < w.entries.len() implies (
            #[trigger] w.entries[i]).record.state == RuleState::Active by {
                let a = if i < k {
                    i
                } else {
                    i + 1
                };
                assert(w.entries[i] == u.entries[a]);
            }
            let now_done = if j < stale.len() {
                stale.take(j)
            } else {
                stale
            };
            assert(now_done =~= done.push(t));
            assert forall|ip: IpNet| #[trigger] has_ip(w.entries, ip) <==> present_after(
                v,
                desired,
                j,
                ip,
            ) by {
                assert(has_ip(u.entries, ip) <==> present_after(v, desired, j - 1, ip));
                if ip != t {
                    lemma_step_frame(run, step, events, ip);
                    if now_done.contains(ip) {
                        let a = choose|a: int| 0 <= a < now_done.len() && now_done[a] == ip;
                        assert(done[a] == ip);
                        assert(done.contains(ip));
                    }
                    if done.contains(ip) {
                        let a = choose|a: int| 0 <= a < done.len() && done[a] == ip;
                        assert(now_done[a] == ip);
                    }
                } else {
                    assert(now_done[j - 1] == t);
                    assert(now_done.contains(t));
                }
            }
        } else {
            let n = j - 1 - first.len();
            let entry = desired[n];
            assert(step == install_steps(desired)[n]);
            assert(step == PlanStep::Install { entry });
            assert forall|ip: IpNet| wanted_before(desired, n + 1, ip) <==> (wanted_before(
                desired,
                n,
                ip,
            ) || (entry.ip == ip && entry.action == RuleAction::Block)) by {
                if wanted_before(desired, n + 1, ip) {
                    let i = choose|i: int|
                        0 <= i < n + 1 && i < desired.len() && (#[trigger] desired[i]).ip == ip
                            && desired[i].action == RuleAction::Block;
                    if i < n {
                        assert(wanted_before(desired, n, ip));
                    }
                }
                if wanted_before(desired, n, ip) {
                    let i = choose|i: int|
                        0 <= i < n && i < desired.len() && (#[trigger] desired[i]).ip == ip
                            && desired[i].action == RuleAction::Block;
                    assert(desired[i].ip == ip);
                }
                if entry.ip == ip && entry.action == RuleAction::Block {
                    assert(desired[n].ip == ip);
                }
            }
            if install_due(u, entry) {
                assert(u.next_id < u64::MAX) by {
                    if u.next_id == u64::MAX {
                        assert(after.failed.len() == run.failed.len() + 1);
                    }
                }
                lemma_install_keeps_invariant(u, draft_of(entry), events, run.used);
                let m = install_model(u, draft_of(entry), events, run.used);
                assert(m.result is Ok) by {
                    if m.result is Err {
                        assert(after.failed.len() == run.failed.len() + 1);
                    }
                }
                assert forall|i: int| 0 <= i < w.entries.len() implies (
                #[trigger] w.entries[i]).record.state == RuleState::Active by {
                    if i < u.entries.len() {
                        assert(w.entries[i] == w.entries.drop_last()[i]);
                    } else {
                        assert(w.entries[i] == w.entries.last());
                    }
                }
                lemma_rule_at(w, u.entries.len() as int);
                assert(w.entries.last() == w.entries[u.entries.len() as int]);
                assert(has_ip(w.entries, entry.ip));
            }
            assert forall|ip: IpNet| #[trigger] has_ip(w.entries, ip) <==> present_after(
                v,
                desired,
                j,
                ip,
            ) by {
                assert(has_ip(u.entries, ip) <==> present_after(v, desired, j - 1, ip));
                if ip != entry.ip {
                    lemma_step_frame(run, step, events, ip);
                }
            }
        }
    }
}

/// Reconciliation. Where the store is at rest and no step of the
/// reconciliation fails, the store ends up at rest with a record for exactly
/// the addresses that the desired set asks to block.
pub proof fn lemma_reconcile_reaches_desired(
    v: StoreView,
    desired: Seq<RuleEntryView>,
    events: Seq<BackendEvent>,
)
    requires
        v.wf(),
        v.at_rest(),
        forall|i: int| 0 <= i < desired.len() ==> (#[trigger] desired[i]).ip.wf(),
        reconcile_model(v, desired, events).failed.len() == 0,
    ensures
        ({
            let w = reconcile_model(v, desired, events).store;
            &&& w.wf()
            &&& w.at_rest()
            &&& forall|ip: IpNet| #[trigger] has_ip(w.entries, ip) <==> wanted(desired, ip)
        }),
{
    let plan = plan_for(v, desired);
    let stale = stale_ips(v.entries, desired);
    let n = plan.len() as int;
    lemma_reached_upto(v, desired, events, n);
    assert(plan.take(n) =~= plan);
    let w = reconcile_model(v, desired, events).store;
    assert forall|i: int, k: int| 0 <= i < k < v.entries.len() implies (
    #[trigger] v.entries[i]).record.ip != (#[trigger] v.entries[k]).record.ip by {}
    lemma_stale_ips(v.entries, desired);
    assert forall|ip: IpNet| #[trigger] has_ip(w.entries, ip) <==> wanted(desired, ip) by {
        assert(has_ip(w.entries, ip) <==> present_after(v, desired, n, ip));
        assert(n - stale.len() == desired.len());
        if wanted_before(desired, desired.len() as int, ip) {
            let i = choose|i: int|
                0 <= i < desired.len() && i < desired.len() && (#[trigger] desired[i]).ip == ip
                    && desired[i].action == RuleAction::Block;
            assert(desired[i].ip == ip);
        }
        if wanted(desired, ip) {
            let i = choose|i: int|
                0 <= i < desired.len() && (#[trigger] desired[i]).ip == ip && desired[i].action
                    == RuleAction::Block;
            assert(desired[i].ip == ip);
            assert(wanted_before(desired, desired.len() as int, ip));
        }
        if has_ip(v.entries, ip) && !stale.contains(ip) {
            assert(v.entries[ip_position(v.entries, ip)].record.state == RuleState::Active);
        }
    }
}

} // verus!
