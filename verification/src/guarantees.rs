//! What holds of the store whatever is asked of it, and whatever the backend
//! answers: one record for an address, timers that go with their records,
//! an allow that may be repeated, a block that replaces, rules that expire
//! once, and a rule set that comes back from its file.

use crate::address::IpNet;
use crate::codec::{encode_entry, entries_of, entry_of, spec_export, FormatError, RuleEntryView};
use crate::gateway::BackendEvent;
use crate::import::{collect, lemma_collected_ips, scan_frames, spec_import, ImportView};
use crate::model::{
    has_ip, has_rule, ip_position, lemma_activate_wf, lemma_evict_wf, lemma_ip_position,
    lemma_resume_wf, lemma_retry_delay_bounds, lemma_timer_rule, rule_position, scheduled,
    spec_retry_at, RuleDraft, StoreView,
};
use crate::protocol::{
    allow_model, apply_event_ok, apply_result, block_model, expire_run, expire_step,
    install_model, lemma_entered_last, lemma_evicted, lemma_suspended_position, retract_model,
    retract_result, ExpiryRun, Outcome,
};
use crate::reconcile::{
    draft_of, install_steps, plan_for, plan_step, reconcile_model, run_plan, stale_ips,
    PlanStep, ReconcileRun,
};
use crate::record::{RuleAction, RuleOrigin, RuleRecordView, RuleState};
use crate::roundtrip::{exportable, lemma_import_export};
use crate::scheduler::{deadline_of, due_count, has_id, lemma_without_id};
use vstd::prelude::*;

verus! {

/// Uniqueness. A well-formed store holds at most one record for an address,
/// and none of its records is removed.
pub proof fn lemma_one_record_per_address(v: StoreView, i: int, j: int)
    requires
        v.wf(),
        0 <= i < v.entries.len(),
        0 <= j < v.entries.len(),
        v.entries[i].record.ip == v.entries[j].record.ip,
    ensures
        i == j,
        v.entries[i].record.state != RuleState::Removed,
{
    if i < j {
        assert(v.entries[i].record.ip != v.entries[j].record.ip);
    } else if j < i {
        assert(v.entries[j].record.ip != v.entries[i].record.ip);
    }
    assert(crate::model::entry_ok(v.entries[i]));
}

/// Timer coherence. A record has a timer exactly while it is active and has
/// a deadline, and its timer is not due before that deadline.
pub proof fn lemma_timer_of_record(v: StoreView, i: int)
    requires
        v.wf(),
        0 <= i < v.entries.len(),
    ensures
        has_id(v.timers, v.entries[i].record.id) <==> v.entries[i].record.state
            == RuleState::Active && v.entries[i].record.expires_at is Some,
        has_id(v.timers, v.entries[i].record.id) ==> deadline_of(
            v.timers,
            v.entries[i].record.id,
        ) >= v.entries[i].record.expires_at.unwrap(),
{
    assert(has_id(v.timers, v.entries[i].record.id) <==> scheduled(v.entries[i]));
}

/// No timer is without its rule: the rule of each timer has a record in the
/// store, and that record is active. A record that has left the store has
/// left no timer behind.
pub proof fn lemma_record_of_timer(v: StoreView, t: int)
    requires
        v.wf(),
        0 <= t < v.timers.len(),
    ensures
        has_rule(v.entries, v.timers[t].id),
        v.entries[rule_position(v.entries, v.timers[t].id)].record.state == RuleState::Active,
{
    let id = v.timers[t].id;
    assert(has_id(v.timers, id));
    let k = rule_position(v.entries, id);
    assert(has_id(v.timers, v.entries[k].record.id) <==> scheduled(v.entries[k]));
}

/// A retraction on request keeps the store well-formed, and makes one
/// backend call unless the record was pending. Where it succeeds, the record
/// is gone, and so is its timer: no later pass of the scheduler finds the
/// rule.
pub proof fn lemma_retract_keeps_invariant(
    v: StoreView,
    k: int,
    events: Seq<BackendEvent>,
    at: nat,
)
    requires
        v.wf(),
        0 <= k < v.entries.len(),
    ensures
        retract_model(v, k, events, at).store.wf(),
        retract_model(v, k, events, at).store.next_id == v.next_id,
        retract_model(v, k, events, at).used == (if v.entries[k].record.state
            == RuleState::Pending {
            at
        } else {
            at + 1
        }),
        retract_model(v, k, events, at).result is Ok ==> {
            let w = retract_model(v, k, events, at).store;
            &&& w.entries == v.entries.remove(k)
            &&& !has_ip(w.entries, v.entries[k].record.ip)
            &&& !has_rule(w.entries, v.entries[k].record.id)
            &&& !has_id(w.timers, v.entries[k].record.id)
        },
{
    let e = v.entries[k];
    assert(crate::model::entry_ok(e));
    lemma_evicted(v, k);
}

/// An installation keeps the store well-formed. Where the backend applied
/// the rule, its record stands last, active; where it failed, the records
/// are those from before.
pub proof fn lemma_install_keeps_invariant(
    v: StoreView,
    draft: RuleDraft,
    events: Seq<BackendEvent>,
    at: nat,
)
    requires
        v.wf(),
        draft.ip.wf(),
        !has_ip(v.entries, draft.ip),
        v.next_id < u64::MAX,
    ensures
        install_model(v, draft, events, at).store.wf(),
        install_model(v, draft, events, at).store.next_id == v.next_id + 1,
        match install_model(v, draft, events, at).result {
            Ok(id) => {
                let w = install_model(v, draft, events, at).store;
                &&& id == v.next_id
                &&& w.entries.len() == v.entries.len() + 1
                &&& w.entries.drop_last() == v.entries
                &&& w.entries.last().record == v.pending_entry(draft).record.with_state(
                    RuleState::Active,
                )
            },
            Err(_) => install_model(v, draft, events, at).store.entries == v.entries,
        },
{
    let k = v.entries.len() as int;
    lemma_entered_last(v, draft);
    let u = v.enter(draft);
    match apply_result(events[at as int]) {
        Ok(h) => {
            lemma_activate_wf(u, k, h);
            assert(u.activate(k, h).entries.drop_last() =~= v.entries);
        },
        Err(_) => {
            lemma_evict_wf(u, k);
            assert(u.evict(k).entries =~= v.entries);
        },
    }
}

/// Idempotent allow. Allowing an address that has no record succeeds with
/// `false`, leaves the store as it is and makes no backend call.
pub proof fn lemma_allow_without_record(v: StoreView, ip: IpNet, events: Seq<BackendEvent>)
    requires
        !has_ip(v.entries, ip),
    ensures
        allow_model(v, Some(ip), events) == (Outcome {
            store: v,
            result: Ok::<bool, crate::error::FirewallError>(false),
            used: 0,
            valid: true,
        }),
{
}

/// Allowing an address keeps the store well-formed and makes at most one
/// backend call, a retraction. Where it succeeds with `true`, the rule has
/// neither record nor timer afterwards.
pub proof fn lemma_allow_keeps_invariant(v: StoreView, ip: IpNet, events: Seq<BackendEvent>)
    requires
        v.wf(),
    ensures
        allow_model(v, Some(ip), events).store.wf(),
        allow_model(v, Some(ip), events).used <= 1,
        allow_model(v, Some(ip), events).result == Ok::<bool, crate::error::FirewallError>(true)
            ==> {
            let w = allow_model(v, Some(ip), events).store;
            let id = v.entries[ip_position(v.entries, ip)].record.id;
            &&& has_ip(v.entries, ip)
            &&& !has_ip(w.entries, ip)
            &&& !has_rule(w.entries, id)
            &&& !has_id(w.timers, id)
        },
{
    if has_ip(v.entries, ip) {
        lemma_retract_keeps_invariant(v, ip_position(v.entries, ip), events, 0);
    }
}

/// Rollback. An allow that fails leaves the store as it was before the
/// request: the same records in the same states, and the same timers with
/// the same deadlines in the same places.
pub proof fn lemma_failed_allow_changes_nothing(
    v: StoreView,
    ip: Option<IpNet>,
    events: Seq<BackendEvent>,
)
    ensures
        allow_model(v, ip, events).result is Err ==> allow_model(v, ip, events).store == v,
{
}

/// A block on an address whose record the backend fails to retract fails,
/// makes no further call, and leaves the store as it was before the request.
pub proof fn lemma_failed_replacement_changes_nothing(
    v: StoreView,
    ip: IpNet,
    deadline: Option<u64>,
    reason: Option<Seq<char>>,
    now: u64,
    events: Seq<BackendEvent>,
)
    requires
        v.next_id < u64::MAX,
        has_ip(v.entries, ip),
        v.entries[ip_position(v.entries, ip)].record.state != RuleState::Pending,
        retract_result(events[0]) is Err,
    ensures
        ({
            let m = block_model(v, Some(ip), Some(deadline), reason, now, events);
            m.result is Err && m.used == 1 && m.store == v
        }),
{
}

/// Atomic block. A block on an address without a record that the backend
/// refuses fails with the backend's error after that one call, and the
/// caller sees the store as it was before the request: the same records and
/// the same timers. Only the identifier of the discarded record is spent.
pub proof fn lemma_failed_block_keeps_the_rules(
    v: StoreView,
    ip: IpNet,
    deadline: Option<u64>,
    reason: Option<Seq<char>>,
    now: u64,
    events: Seq<BackendEvent>,
)
    requires
        v.wf(),
        ip.wf(),
        !has_ip(v.entries, ip),
        v.next_id < u64::MAX,
        apply_result(events[0]) is Err,
    ensures
        ({
            let m = block_model(v, Some(ip), Some(deadline), reason, now, events);
            &&& m.result is Err
            &&& m.used == 1
            &&& m.store.entries == v.entries
            &&& m.store.timers == v.timers
            &&& m.store.records() == v.records()
            &&& m.store.next_id == v.next_id + 1
        }),
{
    let draft = RuleDraft {
        ip,
        reason,
        created_at: now,
        expires_at: deadline,
        origin: RuleOrigin::Manual,
    };
    lemma_install_keeps_invariant(v, draft, events, 0);
    lemma_entered_last(v, draft);
    let u = v.enter(draft);
    let k = v.entries.len() as int;
    if has_id(v.timers, v.next_id) {
        let p = rule_position(v.entries, v.next_id);
        assert(v.entries[p].record.id < v.next_id);
    }
    lemma_without_id(u.timers, v.next_id);
    let m = block_model(v, Some(ip), Some(deadline), reason, now, events);
    assert(m.store.timers =~= v.timers);
    assert(m.store.records() =~= v.records());
}

/// Blocking an address keeps the store well-formed.
pub proof fn lemma_block_keeps_invariant(
    v: StoreView,
    ip: Option<IpNet>,
    deadline: Option<Option<u64>>,
    reason: Option<Seq<char>>,
    now: u64,
    events: Seq<BackendEvent>,
)
    requires
        v.wf(),
        ip matches Some(a) ==> a.wf(),
    ensures
        block_model(v, ip, deadline, reason, now, events).store.wf(),
        block_model(v, ip, deadline, reason, now, events).used <= 2,
{
    if ip is Some && deadline is Some && v.next_id < u64::MAX {
        let draft = RuleDraft {
            ip: ip.unwrap(),
            reason,
            created_at: now,
            expires_at: deadline.unwrap(),
            origin: RuleOrigin::Manual,
        };
        if !has_ip(v.entries, draft.ip) {
            lemma_install_keeps_invariant(v, draft, events, 0);
        } else {
            let k = ip_position(v.entries, draft.ip);
            lemma_retract_keeps_invariant(v, k, events, 0);
            let m = retract_model(v, k, events, 0);
            if m.result is Ok {
                lemma_install_keeps_invariant(m.store, draft, events, m.used);
            }
        }
    }
}

/// Success means enforced and scheduled. A block on an address without a
/// record, when it succeeds, made exactly one backend call, the application
/// of the rule. Afterwards the record stands last and is active, it holds
/// what the request said, and it has a timer exactly if the request had a
/// duration, at the deadline.
pub proof fn lemma_block_installs(
    v: StoreView,
    ip: IpNet,
    deadline: Option<u64>,
    reason: Option<Seq<char>>,
    now: u64,
    events: Seq<BackendEvent>,
)
    requires
        v.wf(),
        ip.wf(),
        !has_ip(v.entries, ip),
        block_model(v, Some(ip), Some(deadline), reason, now, events).result is Ok,
    ensures
        ({
            let m = block_model(v, Some(ip), Some(deadline), reason, now, events);
            let record = m.store.entries.last().record;
            &&& m.used == 1
            &&& apply_result(events[0]) is Ok
            &&& m.result == Ok::<u64, crate::error::FirewallError>(v.next_id)
            &&& m.store.wf()
            &&& m.store.entries.len() == v.entries.len() + 1
            &&& m.store.entries.drop_last() == v.entries
            &&& record == (RuleRecordView {
                id: v.next_id,
                ip,
                action: RuleAction::Block,
                created_at: now,
                expires_at: deadline,
                reason,
                origin: RuleOrigin::Manual,
                state: RuleState::Active,
            })
            &&& has_id(m.store.timers, v.next_id) <==> deadline is Some
            &&& deadline matches Some(d) ==> deadline_of(m.store.timers, v.next_id) == d
        }),
{
    let draft = RuleDraft {
        ip,
        reason,
        created_at: now,
        expires_at: deadline,
        origin: RuleOrigin::Manual,
    };
    lemma_install_keeps_invariant(v, draft, events, 0);
    lemma_entered_last(v, draft);
    let u = v.enter(draft);
    let m = install_model(v, draft, events, 0);
    if has_id(v.timers, v.next_id) {
        let p = rule_position(v.entries, v.next_id);
        assert(v.entries[p].record.id < v.next_id);
    }
    match deadline {
        Some(d) => {
            crate::scheduler::lemma_with_timer(
                u.timers,
                crate::scheduler::Timer { deadline: d, id: v.next_id },
            );
        },
        None => {},
    }
}

/// Replace semantics. A block on an address that has an active record, when
/// it succeeds, made exactly two backend calls: the retraction of the old
/// rule and then the application of the new one. Afterwards the address has
/// one record, active, under a new identifier and with the new reason, and
/// the old record is gone with its timer.
pub proof fn lemma_block_replaces(
    v: StoreView,
    ip: IpNet,
    deadline: Option<u64>,
    reason: Option<Seq<char>>,
    now: u64,
    events: Seq<BackendEvent>,
)
    requires
        v.wf(),
        ip.wf(),
        has_ip(v.entries, ip),
        v.entries[ip_position(v.entries, ip)].record.state == RuleState::Active,
        block_model(v, Some(ip), Some(deadline), reason, now, events).valid,
        block_model(v, Some(ip), Some(deadline), reason, now, events).result is Ok,
    ensures
        ({
            let m = block_model(v, Some(ip), Some(deadline), reason, now, events);
            let old_entry = v.entries[ip_position(v.entries, ip)];
            let p = ip_position(m.store.entries, ip);
            &&& m.used == 2
            &&& events[0] matches BackendEvent::Retract { handle, result }
            &&& Some(handle) == old_entry.handle
            &&& result is Ok
            &&& events[1] matches BackendEvent::ApplyBlock {
                ip: applied,
                reason: given,
                result: answer,
            }
            &&& applied == ip
            &&& given == reason
            &&& answer is Ok
            &&& m.store.wf()
            &&& has_ip(m.store.entries, ip)
            &&& m.store.entries[p].record.state == RuleState::Active
            &&& m.store.entries[p].record.reason == reason
            &&& m.store.entries[p].record.expires_at == deadline
            &&& m.store.entries[p].record.created_at == now
            &&& m.store.entries[p].record.id == v.next_id
            &&& m.result == Ok::<u64, crate::error::FirewallError>(v.next_id)
            &&& !has_rule(m.store.entries, old_entry.record.id)
            &&& !has_id(m.store.timers, old_entry.record.id)
            &&& m.store.entries.len() == v.entries.len()
        }),
{
    let k = ip_position(v.entries, ip);
    let draft = RuleDraft {
        ip,
        reason,
        created_at: now,
        expires_at: deadline,
        origin: RuleOrigin::Manual,
    };
    assert(crate::model::entry_ok(v.entries[k]));
    lemma_retract_keeps_invariant(v, k, events, 0);
    let r = retract_model(v, k, events, 0);
    lemma_install_keeps_invariant(r.store, draft, events, 1);
    let m = install_model(r.store, draft, events, 1);
    let last = r.store.entries.len() as int;
    lemma_ip_position(m.store, ip, last);
    let old_id = v.entries[k].record.id;
    if has_rule(m.store.entries, old_id) {
        let q = rule_position(m.store.entries, old_id);
        if q < last {
            assert(m.store.entries.drop_last()[q] == m.store.entries[q]);
            assert(r.store.entries[q].record.id == old_id);
        }
    }
    let h = apply_result(events[1])->Ok_0;
    let u = r.store.enter(draft);
    lemma_entered_last(r.store, draft);
    match deadline {
        Some(d) => {
            crate::scheduler::lemma_with_timer(
                u.timers,
                crate::scheduler::Timer { deadline: d, id: v.next_id },
            );
        },
        None => {},
    }
}

/// One step of the scheduler keeps the store well-formed, and takes the
/// rule whose deadline came first out of the timers that are due.
pub proof fn lemma_expire_step_keeps_invariant(run: ExpiryRun, now: u64, ev: BackendEvent)
    requires
        run.store.wf(),
        run.store.timers.len() > 0,
    ensures
        expire_step(run, now, ev).store.wf(),
{
    let v = run.store;
    lemma_timer_rule(v);
    let id = v.timers[0].id;
    let k = rule_position(v.entries, id);
    let e = v.entries[k];
    lemma_suspended_position(v, k);
    let s = v.suspend(k);
    assert(crate::model::entry_ok(e));
    match retract_result(ev) {
        Ok(_) => {},
        Err(_) => {
            match spec_retry_at(e, now) {
                Some(at) => {
                    lemma_retry_delay_bounds(e.attempts + 1);
                    lemma_resume_wf(s, k, Some(at), e.attempts + 1);
                },
                None => {},
            }
        },
    }
}

/// A pass of the scheduler keeps the store well-formed.
pub proof fn lemma_expire_run_keeps_invariant(v: StoreView, now: u64, events: Seq<BackendEvent>)
    requires
        v.wf(),
        expire_run(v, now, events).valid,
    ensures
        expire_run(v, now, events).store.wf(),
    decreases events.len(),
{
    if events.len() > 0 {
        let before = expire_run(v, now, events.drop_last());
        lemma_expire_run_keeps_invariant(v, now, events.drop_last());
        lemma_expire_step_keeps_invariant(before, now, events.last());
    }
}

/// One step of a reconciliation keeps the store well-formed.
pub proof fn lemma_plan_step_keeps_invariant(
    run: ReconcileRun,
    step: PlanStep,
    events: Seq<BackendEvent>,
)
    requires
        run.store.wf(),
        step matches PlanStep::Install { entry } ==> entry.ip.wf(),
    ensures
        plan_step(run, step, events).store.wf(),
{
    let v = run.store;
    match step {
        PlanStep::Retract { ip } => {
            if crate::reconcile::retract_due(v, ip) {
                lemma_retract_keeps_invariant(v, ip_position(v.entries, ip), events, run.used);
            }
        },
        PlanStep::Install { entry } => {
            if crate::reconcile::install_due(v, entry) && v.next_id < u64::MAX {
                lemma_install_keeps_invariant(v, draft_of(entry), events, run.used);
            }
        },
    }
}

/// A reconciliation keeps the store well-formed.
pub proof fn lemma_run_plan_keeps_invariant(
    v: StoreView,
    plan: Seq<PlanStep>,
    events: Seq<BackendEvent>,
)
    requires
        v.wf(),
        forall|i: int|
            0 <= i < plan.len() ==> ((#[trigger] plan[i]) matches PlanStep::Install { entry }
                ==> entry.ip.wf()),
    ensures
        run_plan(v, plan, events).store.wf(),
    decreases plan.len(),
{
    if plan.len() > 0 {
        let init = plan.drop_last();
        assert forall|i: int| 0 <= i < init.len() implies ((
        #[trigger] init[i]) matches PlanStep::Install { entry } ==> entry.ip.wf()) by {
            assert(init[i] == plan[i]);
        }
        lemma_run_plan_keeps_invariant(v, init, events);
        assert(plan.last() == plan[plan.len() - 1]);
        lemma_plan_step_keeps_invariant(run_plan(v, init, events), plan.last(), events);
    }
}

/// The backend applied the rule of each entry in turn.
pub open spec fn all_applied(desired: Seq<RuleEntryView>, events: Seq<BackendEvent>) -> bool {
    &&& events.len() == desired.len()
    &&& forall|i: int|
        0 <= i < desired.len() ==> apply_event_ok(draft_of(desired[i]), #[trigger] events[i])
            && apply_result(events[i]) is Ok
}

/// The record that an entry becomes when its rule is installed under `id`.
pub open spec fn installed_record(e: RuleEntryView, id: u64) -> RuleRecordView {
    RuleRecordView {
        id,
        ip: e.ip,
        action: RuleAction::Block,
        created_at: e.created_at,
        expires_at: e.expires_at,
        reason: e.reason,
        origin: e.origin,
        state: RuleState::Active,
    }
}

/// Installing blocks for distinct addresses into an empty store, with a
/// backend that applies every rule: after `j` of them the store holds their
/// records in their order, under the identifiers from 1 on.
proof fn lemma_install_all(desired: Seq<RuleEntryView>, events: Seq<BackendEvent>, j: int)
    requires
        0 <= j <= desired.len(),
        desired.len() < u64::MAX,
        all_applied(desired, events),
        forall|a: int, b: int|
            0 <= a < b < desired.len() ==> (#[trigger] desired[a]).ip != (#[trigger] desired[b]).ip,
        forall|i: int|
            0 <= i < desired.len() ==> (#[trigger] desired[i]).action == RuleAction::Block
                && desired[i].ip.wf(),
    ensures
        ({
            let run = run_plan(StoreView::empty(), install_steps(desired.take(j)), events);
            &&& run.valid
            &&& run.used == j
            &&& run.failed.len() == 0
            &&& run.retracted.len() == 0
            &&& run.installed.len() == j
            &&& run.store.wf()
            &&& run.store.next_id == j + 1
            &&& run.store.entries.len() == j
            &&& forall|i: int|
                0 <= i < j ==> (#[trigger] run.store.entries[i]).record == installed_record(
                    desired[i],
                    (i + 1) as u64,
                )
        }),
    decreases j,
{
    if j == 0 {
        assert(install_steps(desired.take(0)) =~= Seq::<PlanStep>::empty());
    } else {
        lemma_install_all(desired, events, j - 1);
        let plan = install_steps(desired.take(j));
        let init = install_steps(desired.take(j - 1));
        assert(plan.drop_last() =~= init);
        assert(plan.last() == PlanStep::Install { entry: desired[j - 1] });
        let prev = run_plan(StoreView::empty(), init, events);
        let d = desired[j - 1];
        let v = prev.store;
        if has_ip(v.entries, d.ip) {
            let p = ip_position(v.entries, d.ip);
            assert(v.entries[p].record == installed_record(desired[p], (p + 1) as u64));
            assert(desired[p].ip != desired[j - 1].ip);
        }
        lemma_install_keeps_invariant(v, draft_of(d), events, prev.used);
        let m = install_model(v, draft_of(d), events, prev.used);
        assert(apply_result(events[j - 1]) is Ok);
        let run = run_plan(StoreView::empty(), plan, events);
        assert(run.store == m.store);
        assert forall|i: int| 0 <= i < j implies (#[trigger] run.store.entries[i]).record
            == installed_record(desired[i], (i + 1) as u64) by {
            if i < j - 1 {
                assert(run.store.entries[i] == run.store.entries.drop_last()[i]);
                assert(v.entries[i].record == installed_record(desired[i], (i + 1) as u64));
            } else {
                assert(run.store.entries[i] == run.store.entries.last());
            }
        }
    }
}

/// The identifiers of a well-formed store grow from 1 on, so that the store
/// holds fewer records than there are identifiers.
proof fn lemma_ids_bound(v: StoreView, i: int)
    requires
        v.wf(),
        0 <= i < v.entries.len(),
    ensures
        v.entries[i].record.id >= i + 1,
        v.entries.len() < u64::MAX,
    decreases v.entries.len() - i,
{
    assert(crate::model::entry_ok(v.entries[i]));
    if i > 0 {
        lemma_ids_bound_up(v, i);
    }
    let n = v.entries.len() as int;
    lemma_ids_bound_up(v, n - 1);
    assert(v.entries[n - 1].record.id < v.next_id);
}

/// The identifier of the record at `i` is at least `i + 1`.
proof fn lemma_ids_bound_up(v: StoreView, i: int)
    requires
        v.wf(),
        0 <= i < v.entries.len(),
    ensures
        v.entries[i].record.id >= i + 1,
    decreases i,
{
    assert(crate::model::entry_ok(v.entries[i]));
    if i > 0 {
        lemma_ids_bound_up(v, i - 1);
        assert(v.entries[i - 1].record.id < v.entries[i].record.id);
    }
}

/// Round trip. Take a store, write it as a file, read the file, and
/// reconcile an empty store with what was read, against a backend that
/// applies every rule. The file is read back entry for entry without a
/// warning; the reconciliation makes one backend call for each record and
/// fails none; and the new store holds one active record for each record of
/// the old one, in the same order and with the same address, action, reason,
/// origin, time of creation and deadline. Only the identifier may differ: it
/// is the record's place counted from 1. Where the old store was at rest,
/// the states are the same too.
pub proof fn lemma_round_trip(v: StoreView, events: Seq<BackendEvent>)
    requires
        v.wf(),
        forall|i: int|
            0 <= i < v.entries.len() ==> encode_entry(entry_of(#[trigger] v.records()[i])).len()
                <= u64::MAX,
        all_applied(entries_of(v.records()), events),
    ensures
        spec_import(spec_export(entries_of(v.records()))) == Ok::<ImportView, FormatError>(
            ImportView { entries: entries_of(v.records()), warnings: Seq::empty() },
        ),
        ({
            let run = reconcile_model(StoreView::empty(), entries_of(v.records()), events);
            &&& run.valid
            &&& run.used == events.len()
            &&& run.failed.len() == 0
            &&& run.store.wf()
            &&& run.store.at_rest()
            &&& run.store.records().len() == v.records().len()
            &&& entries_of(run.store.records()) == entries_of(v.records())
            &&& forall|i: int|
                0 <= i < v.records().len() ==> (#[trigger] run.store.records()[i]).id == i + 1
            &&& v.at_rest() ==> forall|i: int|
                0 <= i < v.records().len() ==> #[trigger] run.store.records()[i]
                    == v.records()[i].with_id((i + 1) as u64)
        }),
{
    let desired = entries_of(v.records());
    let n = v.entries.len() as int;
    assert forall|i: int| 0 <= i < desired.len() implies exportable(#[trigger] desired[i]) by {
        assert(crate::model::entry_ok(v.entries[i]));
        assert(desired[i] == entry_of(v.records()[i]));
        lemma_frame_holds_text(desired[i]);
    }
    lemma_import_export(desired);
    assert forall|a: int, b: int| 0 <= a < b < desired.len() implies (#[trigger] desired[a]).ip
        != (#[trigger] desired[b]).ip by {
        assert(v.entries[a].record.ip != v.entries[b].record.ip);
    }
    assert forall|i: int| 0 <= i < desired.len() implies (#[trigger] desired[i]).action
        == RuleAction::Block && desired[i].ip.wf() by {
        assert(crate::model::entry_ok(v.entries[i]));
    }
    if n > 0 {
        lemma_ids_bound(v, 0);
    }
    lemma_install_all(desired, events, n);
    assert(desired.take(n) =~= desired);
    assert(stale_ips(StoreView::empty().entries, desired) =~= Seq::<IpNet>::empty());
    assert(plan_for(StoreView::empty(), desired) =~= install_steps(desired));
    let run = reconcile_model(StoreView::empty(), desired, events);
    assert forall|i: int| 0 <= i < n implies #[trigger] run.store.records()[i]
        == installed_record(desired[i], (i + 1) as u64) by {
        assert(run.store.entries[i].record == installed_record(desired[i], (i + 1) as u64));
    }
    assert(entries_of(run.store.records()) =~= desired) by {
        assert forall|i: int| 0 <= i < n implies entries_of(run.store.records())[i]
            == desired[i] by {
            assert(run.store.records()[i] == installed_record(desired[i], (i + 1) as u64));
            assert(crate::model::entry_ok(v.entries[i]));
        }
    }
    if v.at_rest() {
        assert forall|i: int| 0 <= i < v.records().len() implies #[trigger] run.store.records()[i]
            == v.records()[i].with_id((i + 1) as u64) by {
            assert(run.store.records()[i] == installed_record(desired[i], (i + 1) as u64));
            assert(crate::model::entry_ok(v.entries[i]));
            assert(v.entries[i].record.state == RuleState::Active);
        }
    }
    assert forall|i: int| 0 <= i < run.store.entries.len() implies (
    #[trigger] run.store.entries[i]).record.state == RuleState::Active by {
        assert(run.store.entries[i].record == installed_record(desired[i], (i + 1) as u64));
    }
}

/// The text of an entry is no longer than its frame.
proof fn lemma_frame_holds_text(e: RuleEntryView)
    requires
        encode_entry(e).len() <= u64::MAX,
    ensures
        e.reason matches Some(t) ==> vstd::utf8::encode_utf8(t).len() <= u64::MAX,
{
}

/// Partial import. Each frame of a file is read as an entry or skipped with
/// a warning: a frame that cannot be read costs its own entry and nothing
/// else.
pub proof fn lemma_every_frame_accounted(frames: Seq<Seq<u8>>)
    ensures
        collect(frames).entries.len() + collect(frames).warnings.len() == frames.len(),
    decreases frames.len(),
{
    if frames.len() > 0 {
        lemma_every_frame_accounted(frames.drop_last());
    }
}

/// Partial import into an empty store. Take a file that can be read, whose
/// entries are blocks for addresses that differ, and reconcile an empty
/// store with them against a backend that applies every rule. Each frame of
/// the file was read as an entry or skipped with a warning; the
/// reconciliation makes one backend call for each entry that was read, none
/// for a frame that was skipped, and fails none; and the store holds one
/// active record for each entry, in the order of the file.
pub proof fn lemma_partial_import(bytes: Seq<u8>, read: ImportView, events: Seq<BackendEvent>)
    requires
        spec_import(bytes) == Ok::<ImportView, FormatError>(read),
        read.entries.len() < u64::MAX,
        forall|i: int|
            0 <= i < read.entries.len() ==> (#[trigger] read.entries[i]).action
                == RuleAction::Block,
        forall|a: int, b: int|
            0 <= a < b < read.entries.len() ==> (#[trigger] read.entries[a]).ip != (
            #[trigger] read.entries[b]).ip,
        all_applied(read.entries, events),
    ensures
        scan_frames(bytes, 5, Seq::empty()) matches Some(frames) && read.entries.len()
            + read.warnings.len() == frames.len(),
        ({
            let run = reconcile_model(StoreView::empty(), read.entries, events);
            &&& run.valid
            &&& run.used == read.entries.len()
            &&& run.failed.len() == 0
            &&& run.retracted.len() == 0
            &&& run.store.wf()
            &&& run.store.at_rest()
            &&& run.store.records().len() == read.entries.len()
            &&& forall|i: int|
                0 <= i < read.entries.len() ==> #[trigger] run.store.records()[i]
                    == installed_record(read.entries[i], (i + 1) as u64)
        }),
{
    let frames = scan_frames(bytes, 5, Seq::empty()).unwrap();
    let desired = read.entries;
    let n = desired.len() as int;
    lemma_every_frame_accounted(frames);
    lemma_collected_ips(frames);
    lemma_install_all(desired, events, n);
    assert(desired.take(n) =~= desired);
    assert(stale_ips(StoreView::empty().entries, desired) =~= Seq::<IpNet>::empty());
    assert(plan_for(StoreView::empty(), desired) =~= install_steps(desired));
    let run = reconcile_model(StoreView::empty(), desired, events);
    assert forall|i: int| 0 <= i < n implies #[trigger] run.store.records()[i]
        == installed_record(desired[i], (i + 1) as u64) by {
        assert(run.store.entries[i].record == installed_record(desired[i], (i + 1) as u64));
    }
    assert forall|i: int| 0 <= i < run.store.entries.len() implies (
    #[trigger] run.store.entries[i]).record.state == RuleState::Active by {
        assert(run.store.entries[i].record == installed_record(desired[i], (i + 1) as u64));
    }
}

/// Expiry. When the deadline that comes first has come and the backend
/// retracts the rule, the step takes the rule out of the store for good: its
/// record is reported as removed, and neither a record nor a timer of it is
/// left. The step takes one timer from those that are due and adds none.
pub proof fn lemma_expired_rule_is_removed(run: ExpiryRun, now: u64, ev: BackendEvent)
    requires
        run.store.wf(),
        run.store.timers.len() > 0,
        run.store.timers[0].deadline <= now,
    ensures
        expire_step(run, now, ev).store.wf(),
        due_count(expire_step(run, now, ev).store.timers, now) + 1 == due_count(
            run.store.timers,
            now,
        ),
        retract_result(ev) is Ok ==> {
            let id = run.store.timers[0].id;
            let record = run.store.entries[rule_position(run.store.entries, id)].record;
            let after = expire_step(run, now, ev);
            &&& !has_rule(after.store.entries, id)
            &&& !has_id(after.store.timers, id)
            &&& after.removed == run.removed.push(record.with_state(RuleState::Removed))
            &&& after.abandoned == run.abandoned
            &&& after.retried == run.retried
        },
{
    let v = run.store;
    let id = v.timers[0].id;
    lemma_timer_rule(v);
    let k = rule_position(v.entries, id);
    let e = v.entries[k];
    lemma_expire_step_keeps_invariant(run, now, ev);
    lemma_suspended_position(v, k);
    let s = v.suspend(k);
    lemma_without_id(v.timers, id);
    lemma_without_id(s.timers, id);
    crate::protocol::lemma_evicted_absent(s, k);
    assert(s.timers == v.timers.drop_first());
    assert(s.evict(k).timers == s.timers);
    match retract_result(ev) {
        Ok(_) => {},
        Err(_) => {
            match spec_retry_at(e, now) {
                Some(at) => {
                    lemma_retry_delay_bounds(e.attempts + 1);
                    crate::scheduler::lemma_with_timer(
                        s.timers,
                        crate::scheduler::Timer { deadline: at, id },
                    );
                },
                None => {},
            }
        },
    }
}

/// A pass of the scheduler makes one backend call for each timer that it
/// takes from those that are due: a rule that is due is retracted once, and a
/// rule that is not due is not retracted.
pub proof fn lemma_expire_run_counts(v: StoreView, now: u64, events: Seq<BackendEvent>)
    requires
        v.wf(),
        expire_run(v, now, events).valid,
    ensures
        expire_run(v, now, events).store.wf(),
        events.len() + due_count(expire_run(v, now, events).store.timers, now) == due_count(
            v.timers,
            now,
        ),
    decreases events.len(),
{
    if events.len() > 0 {
        let before = expire_run(v, now, events.drop_last());
        lemma_expire_run_counts(v, now, events.drop_last());
        lemma_expired_rule_is_removed(before, now, events.last());
    }
}

} // verus!
