//! What each request on the store comes to: the store after it, its result,
//! and the backend calls it makes, as a function of the store before it and
//! of what the backend answers.

use crate::address::IpNet;
use crate::backend::BackendError;
use crate::error::{FirewallError, ValidationError};
use crate::gateway::BackendEvent;
use crate::model::{
    has_ip, has_rule, ip_position, lemma_enter_wf, lemma_evict_wf, lemma_rule_position,
    lemma_suspend_resume, lemma_suspend_wf, rule_position, spec_retry_at, EntryView, RuleDraft,
    StoreView,
};
use crate::record::{RuleOrigin, RuleRecordView, RuleState};
use crate::scheduler::{has_id, lemma_without_id};
use vstd::prelude::*;

verus! {

/// What a request came to: the store after it, its result, how many backend
/// calls it made, and whether the calls recorded are the ones it makes.
pub struct Outcome<R> {
    pub store: StoreView,
    pub result: R,
    pub used: nat,
    pub valid: bool,
}

/// The backend calls recorded between two states of a history.
pub open spec fn events_since(before: Seq<BackendEvent>, after: Seq<BackendEvent>) -> Seq<
    BackendEvent,
> {
    after.skip(before.len() as int)
}

/// The event is the retraction of the rule of `e`.
pub open spec fn retract_event_ok(e: EntryView, ev: BackendEvent) -> bool {
    ev matches BackendEvent::Retract { handle, .. } && Some(handle) == e.handle
}

/// What the backend answered to a retraction.
pub open spec fn retract_result(ev: BackendEvent) -> Result<(), BackendError> {
    match ev {
        BackendEvent::Retract { result, .. } => result,
        _ => arbitrary(),
    }
}

/// The event is the application of the rule of `draft`.
pub open spec fn apply_event_ok(draft: RuleDraft, ev: BackendEvent) -> bool {
    ev matches BackendEvent::ApplyBlock { ip, reason, .. } && ip == draft.ip && reason
        == draft.reason
}

/// What the backend answered to an application.
pub open spec fn apply_result(ev: BackendEvent) -> Result<Seq<char>, BackendError> {
    match ev {
        BackendEvent::ApplyBlock { result, .. } => result,
        _ => arbitrary(),
    }
}

/// When a rule made at `now` expires that lasts `duration` seconds: never,
/// where it has no duration. `None` where that moment is past the last that
/// a time can hold.
pub open spec fn spec_deadline(now: u64, duration: Option<u64>) -> Option<Option<u64>> {
    match duration {
        None => Some(None),
        Some(secs) => if now + secs * 1000 <= u64::MAX {
            Some(Some((now + secs * 1000) as u64))
        } else {
            None
        },
    }
}

/// A retraction on request of the record at `k`. A pending record was never
/// confirmed by the backend: it is discarded without a call. Any other record
/// is retracted at the backend, and the event at `at` is the answer. Where
/// the backend did it, the record leaves the store. Where the backend failed,
/// the store is as it was before the request: the record is in the state it
/// was in, and its timer stands where it stood.
pub open spec fn retract_model(v: StoreView, k: int, events: Seq<BackendEvent>, at: nat) -> Outcome<
    Result<(), BackendError>,
> {
    let e = v.entries[k];
    if e.record.state == RuleState::Pending {
        Outcome { store: v.evict(k), result: Ok(()), used: at, valid: true }
    } else {
        let valid = at < events.len() && retract_event_ok(e, events[at as int]);
        match retract_result(events[at as int]) {
            Ok(_) => Outcome { store: v.evict(k), result: Ok(()), used: at + 1, valid },
            Err(err) => Outcome { store: v, result: Err(err), used: at + 1, valid },
        }
    }
}

/// The installation of a rule for an address without a record, answered by
/// the event at `at`: the rule enters and is active where the backend applied
/// it, and is discarded where the backend failed.
pub open spec fn install_model(
    v: StoreView,
    draft: RuleDraft,
    events: Seq<BackendEvent>,
    at: nat,
) -> Outcome<Result<u64, FirewallError>> {
    let k = v.entries.len() as int;
    let valid = at < events.len() && apply_event_ok(draft, events[at as int]);
    match apply_result(events[at as int]) {
        Ok(h) => Outcome {
            store: v.enter(draft).activate(k, h),
            result: Ok(v.next_id),
            used: at + 1,
            valid,
        },
        Err(err) => Outcome {
            store: v.enter(draft).evict(k),
            result: Err(FirewallError::Backend(err)),
            used: at + 1,
            valid,
        },
    }
}

/// What `allow` comes to. An address without a record is a success without a
/// backend call and without a change; a record in any state is retracted.
pub open spec fn allow_model(v: StoreView, ip: Option<IpNet>, events: Seq<BackendEvent>) -> Outcome<
    Result<bool, FirewallError>,
> {
    match ip {
        None => Outcome {
            store: v,
            result: Err(FirewallError::Validation(ValidationError::InvalidAddress)),
            used: 0,
            valid: true,
        },
        Some(ip) => if !has_ip(v.entries, ip) {
            Outcome { store: v, result: Ok(false), used: 0, valid: true }
        } else {
            let m = retract_model(v, ip_position(v.entries, ip), events, 0);
            Outcome {
                store: m.store,
                result: match m.result {
                    Ok(_) => Ok(true),
                    Err(err) => Err(FirewallError::Backend(err)),
                },
                used: m.used,
                valid: m.valid,
            }
        },
    }
}

/// What `block` comes to for a rule of `reason` made at `now`. A bad address
/// or duration is refused before anything else happens. A record that the
/// address has is retracted first, and the new rule is applied only when that
/// is done: the request replaces the record.
pub open spec fn block_model(
    v: StoreView,
    ip: Option<IpNet>,
    deadline: Option<Option<u64>>,
    reason: Option<Seq<char>>,
    now: u64,
    events: Seq<BackendEvent>,
) -> Outcome<Result<u64, FirewallError>> {
    if ip is None {
        Outcome {
            store: v,
            result: Err(FirewallError::Validation(ValidationError::InvalidAddress)),
            used: 0,
            valid: true,
        }
    } else if deadline is None {
        Outcome {
            store: v,
            result: Err(FirewallError::Validation(ValidationError::InvalidDuration)),
            used: 0,
            valid: true,
        }
    } else if v.next_id == u64::MAX {
        Outcome { store: v, result: Err(FirewallError::Exhausted), used: 0, valid: true }
    } else {
        let draft = RuleDraft {
            ip: ip.unwrap(),
            reason,
            created_at: now,
            expires_at: deadline.unwrap(),
            origin: RuleOrigin::Manual,
        };
        if !has_ip(v.entries, draft.ip) {
            install_model(v, draft, events, 0)
        } else {
            let m = retract_model(v, ip_position(v.entries, draft.ip), events, 0);
            match m.result {
                Err(err) => Outcome {
                    store: m.store,
                    result: Err(FirewallError::Backend(err)),
                    used: m.used,
                    valid: m.valid,
                },
                Ok(_) => {
                    let n = install_model(m.store, draft, events, m.used);
                    Outcome { valid: m.valid && n.valid, ..n }
                },
            }
        }
    }
}

/// What a pass of the scheduler has come to so far.
pub struct ExpiryRun {
    pub store: StoreView,
    /// The records whose rules the backend retracted.
    pub removed: Seq<RuleRecordView>,
    /// The records given up after the last failed attempt.
    pub abandoned: Seq<RuleRecordView>,
    /// How many retractions failed and are to be tried again.
    pub retried: nat,
    pub valid: bool,
}

/// One step of the scheduler at `now`: the rule whose deadline comes first
/// is retracted, and `ev` is what the backend answered. Where the backend
/// failed the rule is tried again later, or given up after the last attempt.
pub open spec fn expire_step(run: ExpiryRun, now: u64, ev: BackendEvent) -> ExpiryRun {
    let v = run.store;
    let k = rule_position(v.entries, v.timers[0].id);
    let e = v.entries[k];
    let valid = run.valid && v.timers.len() > 0 && v.timers[0].deadline <= now
        && retract_event_ok(e, ev);
    match retract_result(ev) {
        Ok(_) => ExpiryRun {
            store: v.suspend(k).evict(k),
            removed: run.removed.push(e.record.with_state(RuleState::Removed)),
            valid,
            ..run
        },
        Err(_) => match spec_retry_at(e, now) {
            Some(at) => ExpiryRun {
                store: v.suspend(k).resume(k, Some(at), e.attempts + 1),
                retried: run.retried + 1,
                valid,
                ..run
            },
            None => ExpiryRun {
                store: v.suspend(k).evict(k),
                abandoned: run.abandoned.push(e.record.with_state(RuleState::Removed)),
                valid,
                ..run
            },
        },
    }
}

/// A pass of the scheduler at `now`: one step for each backend call.
pub open spec fn expire_run(v: StoreView, now: u64, events: Seq<BackendEvent>) -> ExpiryRun
    decreases events.len(),
{
    if events.len() == 0 {
        ExpiryRun {
            store: v,
            removed: Seq::empty(),
            abandoned: Seq::empty(),
            retried: 0,
            valid: true,
        }
    } else {
        expire_step(expire_run(v, now, events.drop_last()), now, events.last())
    }
}

/// Once the record for an address is evicted, the address has none.
pub proof fn lemma_evicted_absent(v: StoreView, k: int)
    requires
        v.wf(),
        0 <= k < v.entries.len(),
    ensures
        !has_ip(v.evict(k).entries, v.entries[k].record.ip),
        !has_rule(v.evict(k).entries, v.entries[k].record.id),
{
    let w = v.evict(k);
    if has_ip(w.entries, v.entries[k].record.ip) {
        let p = ip_position(w.entries, v.entries[k].record.ip);
        let a = if p < k {
            p
        } else {
            p + 1
        };
        assert(w.entries[p] == v.entries[a]);
        if a < k {
            assert(v.entries[a].record.ip != v.entries[k].record.ip);
        } else {
            assert(v.entries[k].record.ip != v.entries[a].record.ip);
        }
    }
    if has_rule(w.entries, v.entries[k].record.id) {
        let p = rule_position(w.entries, v.entries[k].record.id);
        let a = if p < k {
            p
        } else {
            p + 1
        };
        assert(w.entries[p] == v.entries[a]);
        if a < k {
            assert(v.entries[a].record.id < v.entries[k].record.id);
        } else {
            assert(v.entries[k].record.id < v.entries[a].record.id);
        }
    }
}

/// A record that has entered stands last, under the identifier it was given.
pub proof fn lemma_entered_last(v: StoreView, draft: RuleDraft)
    requires
        v.wf(),
        draft.ip.wf(),
        !has_ip(v.entries, draft.ip),
        v.next_id < u64::MAX,
    ensures
        v.enter(draft).wf(),
        has_rule(v.enter(draft).entries, v.next_id),
        rule_position(v.enter(draft).entries, v.next_id) == v.entries.len(),
        v.enter(draft).entries[v.entries.len() as int] == v.pending_entry(draft),
{
    lemma_enter_wf(v, draft);
    lemma_rule_position(v.enter(draft), v.next_id, v.entries.len() as int);
}

/// Once a record is evicted, neither its address nor its identifier has a
/// record, and its rule has no timer.
pub proof fn lemma_evicted(v: StoreView, k: int)
    requires
        v.wf(),
        0 <= k < v.entries.len(),
    ensures
        v.evict(k).wf(),
        v.evict(k).entries == v.entries.remove(k),
        !has_ip(v.evict(k).entries, v.entries[k].record.ip),
        !has_rule(v.evict(k).entries, v.entries[k].record.id),
        !has_id(v.evict(k).timers, v.entries[k].record.id),
{
    lemma_evict_wf(v, k);
    lemma_evicted_absent(v, k);
    lemma_without_id(v.timers, v.entries[k].record.id);
}

/// A record whose retraction has started stands where it stood, expiring,
/// and evicting it then is evicting it at once.
pub proof fn lemma_suspended_position(v: StoreView, k: int)
    requires
        v.wf(),
        0 <= k < v.entries.len(),
        v.entries[k].record.state == RuleState::Active,
    ensures
        v.suspend(k).wf(),
        has_rule(v.suspend(k).entries, v.entries[k].record.id),
        rule_position(v.suspend(k).entries, v.entries[k].record.id) == k,
        v.suspend(k).entries[k].record == v.entries[k].record.with_state(RuleState::Expiring),
        v.suspend(k).entries[k].handle == v.entries[k].handle,
        v.suspend(k).entries[k].attempts == v.entries[k].attempts,
        v.suspend(k).evict(k) == v.evict(k),
        v.suspend(k).resume(k, v.suspend(k).entries[k].parked, v.entries[k].attempts) == v,
        v.suspend(k).evict(k).entries == v.entries.remove(k),
        !has_ip(v.suspend(k).evict(k).entries, v.entries[k].record.ip),
        v.suspend(k).evict(k).wf(),
{
    lemma_suspend_wf(v, k);
    lemma_suspend_resume(v, k);
    let w = v.suspend(k);
    lemma_rule_position(w, v.entries[k].record.id, k);
    lemma_evict_wf(w, k);
    lemma_evicted_absent(w, k);
    lemma_without_id(v.timers, v.entries[k].record.id);
    assert(w.evict(k).entries =~= v.entries.remove(k));
    assert(w.evict(k).timers == v.evict(k).timers);
    assert(w.evict(k).entries =~= v.evict(k).entries);
}

} // verus!
