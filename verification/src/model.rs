//! The rule store as contracts speak of it: the records, their timers, and
//! the steps that a record's life is made of.

use crate::address::IpNet;
use crate::record::{RuleAction, RuleOrigin, RuleRecordView, RuleState};
use crate::scheduler::{
    deadline_of, distinct_ids, has_id, id_position, lemma_id_position, lemma_timer_restored,
    lemma_with_timer, lemma_without_id, sorted, with_timer, without_id, Timer,
};
use vstd::prelude::*;

verus! {

/// How often the scheduler tries to retract an expired rule before it gives
/// the rule up.
pub const MAX_RETRACT_ATTEMPTS: u32 = 5;

/// The wait before the second attempt to retract an expired rule, in
/// milliseconds. Each later wait is twice the one before it.
pub const RETRY_BASE_MS: u64 = 1000;

/// The longest wait between two attempts, in milliseconds.
pub const RETRY_CAP_MS: u64 = 60000;

/// A record in the store, with what the store keeps beside it.
pub struct EntryView {
    pub record: RuleRecordView,
    /// What the backend handed out for the rule, once it has.
    pub handle: Option<Seq<char>>,
    /// How many scheduled retractions of the rule have failed.
    pub attempts: nat,
    /// The deadline of the timer that was taken from the rule when its
    /// retraction began, kept so that the timer can be put back.
    pub parked: Option<u64>,
}

/// The store: its records in the order they were made, the pending
/// expirations, and the identifier that the next record gets.
pub struct StoreView {
    pub entries: Seq<EntryView>,
    pub timers: Seq<Timer>,
    pub next_id: u64,
}

/// What a new rule is made from.
pub struct RuleDraft {
    pub ip: IpNet,
    pub reason: Option<Seq<char>>,
    pub created_at: u64,
    pub expires_at: Option<u64>,
    pub origin: RuleOrigin,
}

/// Some record is for the address `ip`.
pub open spec fn has_ip(entries: Seq<EntryView>, ip: IpNet) -> bool {
    exists|i: int| 0 <= i < entries.len() && (#[trigger] entries[i]).record.ip == ip
}

/// Where the record for `ip` stands.
pub open spec fn ip_position(entries: Seq<EntryView>, ip: IpNet) -> int {
    choose|i: int| 0 <= i < entries.len() && (#[trigger] entries[i]).record.ip == ip
}

/// Some record has the identifier `id`.
pub open spec fn has_rule(entries: Seq<EntryView>, id: u64) -> bool {
    exists|i: int| 0 <= i < entries.len() && (#[trigger] entries[i]).record.id == id
}

/// Where the record `id` stands.
pub open spec fn rule_position(entries: Seq<EntryView>, id: u64) -> int {
    choose|i: int| 0 <= i < entries.len() && (#[trigger] entries[i]).record.id == id
}

/// What holds of each record in the store: its identifier is at least 1, it
/// blocks a well-formed address, it is not removed, it has a handle from the
/// moment the backend confirmed it, and it keeps the deadline of a timer
/// exactly while it is expiring and has a deadline.
pub open spec fn entry_ok(e: EntryView) -> bool {
    &&& e.record.id >= 1
    &&& e.record.ip.wf()
    &&& e.record.action == RuleAction::Block
    &&& e.record.state != RuleState::Removed
    &&& (e.record.state == RuleState::Pending <==> e.handle is None)
    &&& e.attempts < MAX_RETRACT_ATTEMPTS
    &&& (e.parked is Some <==> e.record.state == RuleState::Expiring && e.record.expires_at
        is Some)
    &&& (e.parked is Some ==> e.parked.unwrap() >= e.record.expires_at.unwrap())
}

/// The record is one that has a live timer: active, with a deadline.
pub open spec fn scheduled(e: EntryView) -> bool {
    e.record.state == RuleState::Active && e.record.expires_at is Some
}

/// The wait before the next attempt, after `attempts` failed ones.
pub open spec fn retry_delay(attempts: nat) -> nat
    decreases attempts,
{
    if attempts <= 1 {
        RETRY_BASE_MS as nat
    } else if 2 * retry_delay((attempts - 1) as nat) > RETRY_CAP_MS {
        RETRY_CAP_MS as nat
    } else {
        2 * retry_delay((attempts - 1) as nat)
    }
}

/// When the retraction of an expiring entry is tried again after a failure
/// at `now`: after the wait for its count of failures, and not before its
/// deadline. `None` where the entry has no deadline, where its attempts are
/// used up, and where that time is past the last that a time can hold.
pub open spec fn spec_retry_at(e: EntryView, now: u64) -> Option<u64> {
    match e.record.expires_at {
        None => None,
        Some(deadline) => {
            let at = now + retry_delay(e.attempts + 1);
            if e.attempts + 1 >= MAX_RETRACT_ATTEMPTS || at > u64::MAX {
                None
            } else if at < deadline {
                Some(deadline)
            } else {
                Some(at as u64)
            }
        },
    }
}

impl EntryView {
    /// The same entry with its record in another state.
    pub open spec fn with_state(self, state: RuleState) -> EntryView {
        EntryView { record: self.record.with_state(state), ..self }
    }
}

impl StoreView {
    /// The store's invariant. Identifiers grow along the records and stay
    /// below the next one; no two records are for one address; a rule has a
    /// timer exactly while it is active with a deadline, and no timer is
    /// without its rule or comes before the rule's deadline.
    pub open spec fn wf(self) -> bool {
        &&& self.next_id >= 1
        &&& sorted(self.timers)
        &&& distinct_ids(self.timers)
        &&& forall|i: int|
            0 <= i < self.entries.len() ==> entry_ok(#[trigger] self.entries[i])
                && self.entries[i].record.id < self.next_id
        &&& forall|i: int, j: int|
            0 <= i < j < self.entries.len() ==> (#[trigger] self.entries[i]).record.id < (
            #[trigger] self.entries[j]).record.id
        &&& forall|i: int, j: int|
            0 <= i < j < self.entries.len() ==> (#[trigger] self.entries[i]).record.ip != (
            #[trigger] self.entries[j]).record.ip
        &&& forall|i: int|
            0 <= i < self.entries.len() ==> (has_id(
                self.timers,
                (#[trigger] self.entries[i]).record.id,
            ) <==> scheduled(self.entries[i]))
        &&& forall|x: u64| #[trigger] has_id(self.timers, x) ==> has_rule(self.entries, x)
        &&& forall|i: int|
            0 <= i < self.entries.len() && scheduled(#[trigger] self.entries[i]) ==> deadline_of(
                self.timers,
                self.entries[i].record.id,
            ) >= self.entries[i].record.expires_at.unwrap()
    }

    /// A store that holds nothing.
    pub open spec fn empty() -> StoreView {
        StoreView { entries: Seq::empty(), timers: Seq::empty(), next_id: 1 }
    }

    /// Every record is active: no backend call is under way.
    pub open spec fn at_rest(self) -> bool {
        forall|i: int|
            0 <= i < self.entries.len() ==> (#[trigger] self.entries[i]).record.state
                == RuleState::Active
    }

    /// The records without what the store keeps beside them.
    pub open spec fn records(self) -> Seq<RuleRecordView> {
        Seq::new(self.entries.len(), |i: int| self.entries[i].record)
    }

    /// The entry that a draft becomes when it enters.
    pub open spec fn pending_entry(self, draft: RuleDraft) -> EntryView {
        EntryView {
            record: RuleRecordView {
                id: self.next_id,
                ip: draft.ip,
                action: RuleAction::Block,
                created_at: draft.created_at,
                expires_at: draft.expires_at,
                reason: draft.reason,
                origin: draft.origin,
                state: RuleState::Pending,
            },
            handle: None,
            attempts: 0,
            parked: None,
        }
    }

    /// A new record enters, pending, under the next identifier.
    pub open spec fn enter(self, draft: RuleDraft) -> StoreView {
        StoreView {
            entries: self.entries.push(self.pending_entry(draft)),
            timers: self.timers,
            next_id: (self.next_id + 1) as u64,
        }
    }

    /// The backend confirmed the pending record at `k`: it becomes active
    /// under `handle`, and its deadline, if it has one, is scheduled.
    pub open spec fn activate(self, k: int, handle: Seq<char>) -> StoreView {
        let e = self.entries[k];
        StoreView {
            entries: self.entries.update(
                k,
                EntryView { handle: Some(handle), ..e.with_state(RuleState::Active) },
            ),
            timers: match e.record.expires_at {
                Some(deadline) => with_timer(self.timers, Timer { deadline, id: e.record.id }),
                None => self.timers,
            },
            next_id: self.next_id,
        }
    }

    /// The record at `k` leaves the store, and its timer with it.
    pub open spec fn evict(self, k: int) -> StoreView {
        StoreView {
            entries: self.entries.remove(k),
            timers: without_id(self.timers, self.entries[k].record.id),
            next_id: self.next_id,
        }
    }

    /// A retraction of the active record at `k` starts: its timer is
    /// cancelled, the deadline of the timer is kept with the record, and the
    /// record is expiring.
    pub open spec fn suspend(self, k: int) -> StoreView {
        let e = self.entries[k];
        let parked = if has_id(self.timers, e.record.id) {
            Some(deadline_of(self.timers, e.record.id))
        } else {
            None
        };
        StoreView {
            entries: self.entries.update(
                k,
                EntryView { parked, ..e.with_state(RuleState::Expiring) },
            ),
            timers: without_id(self.timers, e.record.id),
            next_id: self.next_id,
        }
    }

    /// The retraction of the record at `k` failed: it is active again after
    /// `attempts` failed scheduled retractions, with a timer at `fire_at`.
    pub open spec fn resume(self, k: int, fire_at: Option<u64>, attempts: nat) -> StoreView {
        let e = self.entries[k];
        StoreView {
            entries: self.entries.update(
                k,
                EntryView { attempts, parked: None, ..e.with_state(RuleState::Active) },
            ),
            timers: match fire_at {
                Some(deadline) => with_timer(self.timers, Timer { deadline, id: e.record.id }),
                None => self.timers,
            },
            next_id: self.next_id,
        }
    }
}

/// Every wait is at least the first and at most the longest.
pub proof fn lemma_retry_delay_bounds(attempts: nat)
    ensures
        RETRY_BASE_MS <= retry_delay(attempts) <= RETRY_CAP_MS,
    decreases attempts,
{
    if attempts > 1 {
        lemma_retry_delay_bounds((attempts - 1) as nat);
    }
}

/// In a well-formed store the record for an address stands where
/// `ip_position` says.
pub proof fn lemma_ip_position(v: StoreView, ip: IpNet, k: int)
    requires
        v.wf(),
        0 <= k < v.entries.len(),
        v.entries[k].record.ip == ip,
    ensures
        has_ip(v.entries, ip),
        ip_position(v.entries, ip) == k,
{
    assert(has_ip(v.entries, ip));
    let p = ip_position(v.entries, ip);
    if p < k {
        assert(v.entries[p].record.ip != v.entries[k].record.ip);
    } else if k < p {
        assert(v.entries[k].record.ip != v.entries[p].record.ip);
    }
}

/// In a well-formed store the record of an identifier stands where
/// `rule_position` says.
pub proof fn lemma_rule_position(v: StoreView, id: u64, k: int)
    requires
        v.wf(),
        0 <= k < v.entries.len(),
        v.entries[k].record.id == id,
    ensures
        has_rule(v.entries, id),
        rule_position(v.entries, id) == k,
{
    assert(has_rule(v.entries, id));
    let p = rule_position(v.entries, id);
    if p < k {
        assert(v.entries[p].record.id < v.entries[k].record.id);
    } else if k < p {
        assert(v.entries[k].record.id < v.entries[p].record.id);
    }
}

/// Entering a rule for an address that has none keeps the store well-formed.
pub proof fn lemma_enter_wf(v: StoreView, draft: RuleDraft)
    requires
        v.wf(),
        draft.ip.wf(),
        !has_ip(v.entries, draft.ip),
        v.next_id < u64::MAX,
    ensures
        v.enter(draft).wf(),
{
    let w = v.enter(draft);
    let n = v.entries.len() as int;
    assert(w.entries[n] == v.pending_entry(draft));
    assert forall|i: int| 0 <= i < n implies #[trigger] w.entries[i] == v.entries[i] by {}
    assert forall|i: int, j: int| 0 <= i < j < w.entries.len() implies (
    #[trigger] w.entries[i]).record.ip != (#[trigger] w.entries[j]).record.ip by {
        if j == n {
            assert(v.entries[i].record.ip != draft.ip);
        } else {
            assert(v.entries[i].record.ip != v.entries[j].record.ip);
        }
    }
    assert forall|i: int, j: int| 0 <= i < j < w.entries.len() implies (
    #[trigger] w.entries[i]).record.id < (#[trigger] w.entries[j]).record.id by {
        if j == n {
            assert(v.entries[i].record.id < v.next_id);
        } else {
            assert(v.entries[i].record.id < v.entries[j].record.id);
        }
    }
    if has_id(v.timers, v.next_id) {
        let p = rule_position(v.entries, v.next_id);
        assert(v.entries[p].record.id < v.next_id);
    }
    assert forall|i: int| 0 <= i < w.entries.len() implies (has_id(
        w.timers,
        (#[trigger] w.entries[i]).record.id,
    ) <==> scheduled(w.entries[i])) by {
        if i < n {
            assert(w.entries[i] == v.entries[i]);
        }
    }
    assert forall|x: u64| #[trigger] has_id(w.timers, x) implies has_rule(w.entries, x) by {
        let p = rule_position(v.entries, x);
        assert(w.entries[p].record.id == x);
    }
    assert forall|i: int| 0 <= i < w.entries.len() && scheduled(#[trigger] w.entries[i]) implies deadline_of(
        w.timers,
        w.entries[i].record.id,
    ) >= w.entries[i].record.expires_at.unwrap() by {
        assert(w.entries[i] == v.entries[i]);
    }
    assert forall|i: int| 0 <= i < w.entries.len() implies entry_ok(#[trigger] w.entries[i])
        && w.entries[i].record.id < w.next_id by {
        if i < n {
            assert(w.entries[i] == v.entries[i]);
        }
    }
}

/// What changing the entry at `k`, and the timer of its rule alone, keeps of
/// a well-formed store: all that does not speak of that rule's timer.
proof fn lemma_update_frame(v: StoreView, w: StoreView, k: int)
    requires
        v.wf(),
        0 <= k < v.entries.len(),
        w.entries == v.entries.update(k, w.entries[k]),
        w.entries[k].record.id == v.entries[k].record.id,
        w.entries[k].record.ip == v.entries[k].record.ip,
        entry_ok(w.entries[k]),
        w.next_id == v.next_id,
        sorted(w.timers),
        distinct_ids(w.timers),
        forall|x: u64|
            x != v.entries[k].record.id ==> (#[trigger] has_id(w.timers, x) <==> has_id(
                v.timers,
                x,
            )),
        forall|x: u64|
            x != v.entries[k].record.id && has_id(v.timers, x) ==> #[trigger] deadline_of(
                w.timers,
                x,
            ) == deadline_of(v.timers, x),
        has_id(w.timers, v.entries[k].record.id) <==> scheduled(w.entries[k]),
        scheduled(w.entries[k]) ==> deadline_of(w.timers, v.entries[k].record.id)
            >= w.entries[k].record.expires_at.unwrap(),
    ensures
        w.wf(),
{
    let id = v.entries[k].record.id;
    assert(w.entries.len() == v.entries.len());
    assert forall|i: int| 0 <= i < w.entries.len() && i != k implies #[trigger] w.entries[i]
        == v.entries[i] by {}
    assert forall|i: int| 0 <= i < w.entries.len() implies (#[trigger] w.entries[i]).record.id
        == v.entries[i].record.id && w.entries[i].record.ip == v.entries[i].record.ip by {}
    assert forall|i: int, j: int| 0 <= i < j < w.entries.len() implies (
    #[trigger] w.entries[i]).record.id < (#[trigger] w.entries[j]).record.id by {
        assert(v.entries[i].record.id < v.entries[j].record.id);
    }
    assert forall|i: int, j: int| 0 <= i < j < w.entries.len() implies (
    #[trigger] w.entries[i]).record.ip != (#[trigger] w.entries[j]).record.ip by {
        assert(v.entries[i].record.ip != v.entries[j].record.ip);
    }
    assert forall|i: int| 0 <= i < w.entries.len() implies entry_ok(#[trigger] w.entries[i])
        && w.entries[i].record.id < w.next_id by {
        assert(entry_ok(v.entries[i]) && v.entries[i].record.id < v.next_id);
    }
    assert forall|i: int| 0 <= i < w.entries.len() implies (has_id(
        w.timers,
        (#[trigger] w.entries[i]).record.id,
    ) <==> scheduled(w.entries[i])) by {
        if i != k {
            if i < k {
                assert(v.entries[i].record.id < v.entries[k].record.id);
            } else {
                assert(v.entries[k].record.id < v.entries[i].record.id);
            }
            assert(has_id(v.timers, v.entries[i].record.id) <==> scheduled(v.entries[i]));
        }
    }
    assert forall|x: u64| #[trigger] has_id(w.timers, x) implies has_rule(w.entries, x) by {
        if x == id {
            assert(w.entries[k].record.id == x);
        } else {
            assert(has_id(v.timers, x));
            let p = rule_position(v.entries, x);
            assert(w.entries[p].record.id == x);
        }
    }
    assert forall|i: int| 0 <= i < w.entries.len() && scheduled(#[trigger] w.entries[i]) implies deadline_of(
        w.timers,
        w.entries[i].record.id,
    ) >= w.entries[i].record.expires_at.unwrap() by {
        if i != k {
            if i < k {
                assert(v.entries[i].record.id < v.entries[k].record.id);
            } else {
                assert(v.entries[k].record.id < v.entries[i].record.id);
            }
            assert(scheduled(v.entries[i]));
            assert(has_id(v.timers, v.entries[i].record.id));
        }
    }
}

/// Confirming a pending record keeps the store well-formed.
pub proof fn lemma_activate_wf(v: StoreView, k: int, handle: Seq<char>)
    requires
        v.wf(),
        0 <= k < v.entries.len(),
        v.entries[k].record.state == RuleState::Pending,
    ensures
        v.activate(k, handle).wf(),
{
    let w = v.activate(k, handle);
    let e = v.entries[k];
    assert(entry_ok(e));
    assert(!scheduled(e));
    assert(!has_id(v.timers, e.record.id));
    match e.record.expires_at {
        Some(deadline) => {
            lemma_with_timer(v.timers, Timer { deadline, id: e.record.id });
        },
        None => {},
    }
    lemma_update_frame(v, w, k);
}

/// Starting a retraction of an active record keeps the store well-formed.
pub proof fn lemma_suspend_wf(v: StoreView, k: int)
    requires
        v.wf(),
        0 <= k < v.entries.len(),
        v.entries[k].record.state == RuleState::Active,
    ensures
        v.suspend(k).wf(),
{
    let w = v.suspend(k);
    assert(entry_ok(v.entries[k]));
    lemma_without_id(v.timers, v.entries[k].record.id);
    lemma_update_frame(v, w, k);
}

/// A retraction that starts and is taken back leaves the store as it was:
/// the record is active as before, and its timer stands where it stood.
pub proof fn lemma_suspend_resume(v: StoreView, k: int)
    requires
        v.wf(),
        0 <= k < v.entries.len(),
        v.entries[k].record.state == RuleState::Active,
    ensures
        v.suspend(k).resume(k, v.suspend(k).entries[k].parked, v.entries[k].attempts) == v,
{
    let e = v.entries[k];
    let s = v.suspend(k);
    let w = s.resume(k, s.entries[k].parked, e.attempts);
    assert(entry_ok(e));
    if has_id(v.timers, e.record.id) {
        let p = id_position(v.timers, e.record.id);
        lemma_timer_restored(v.timers, p);
        assert(v.timers[p] == (Timer { deadline: deadline_of(v.timers, e.record.id), id: e.record.id }));
    }
    assert(w.entries[k] == e);
    assert(w.entries =~= v.entries);
}

/// Taking up an expiring record again keeps the store well-formed, where it
/// gets a timer exactly if it has a deadline, and none before that deadline.
pub proof fn lemma_resume_wf(v: StoreView, k: int, fire_at: Option<u64>, attempts: nat)
    requires
        v.wf(),
        0 <= k < v.entries.len(),
        v.entries[k].record.state == RuleState::Expiring,
        attempts < MAX_RETRACT_ATTEMPTS,
        fire_at is Some <==> v.entries[k].record.expires_at is Some,
        fire_at is Some ==> fire_at.unwrap() >= v.entries[k].record.expires_at.unwrap(),
    ensures
        v.resume(k, fire_at, attempts).wf(),
{
    let w = v.resume(k, fire_at, attempts);
    let e = v.entries[k];
    assert(entry_ok(e));
    assert(!scheduled(e));
    assert(!has_id(v.timers, e.record.id));
    match fire_at {
        Some(deadline) => {
            lemma_with_timer(v.timers, Timer { deadline, id: e.record.id });
        },
        None => {},
    }
    lemma_update_frame(v, w, k);
}

/// Evicting a record keeps the store well-formed.
pub proof fn lemma_evict_wf(v: StoreView, k: int)
    requires
        v.wf(),
        0 <= k < v.entries.len(),
    ensures
        v.evict(k).wf(),
{
    let w = v.evict(k);
    let id = v.entries[k].record.id;
    lemma_without_id(v.timers, id);
    assert forall|i: int| 0 <= i < w.entries.len() implies #[trigger] w.entries[i] == (if i < k {
        v.entries[i]
    } else {
        v.entries[i + 1]
    }) by {}
    assert forall|i: int| 0 <= i < w.entries.len() implies entry_ok(#[trigger] w.entries[i])
        && w.entries[i].record.id < w.next_id by {
        let a = if i < k {
            i
        } else {
            i + 1
        };
        assert(entry_ok(v.entries[a]) && v.entries[a].record.id < v.next_id);
    }
    assert forall|i: int, j: int| 0 <= i < j < w.entries.len() implies (
    #[trigger] w.entries[i]).record.id < (#[trigger] w.entries[j]).record.id by {
        let a = if i < k {
            i
        } else {
            i + 1
        };
        let b = if j < k {
            j
        } else {
            j + 1
        };
        assert(v.entries[a].record.id < v.entries[b].record.id);
    }
    assert forall|i: int, j: int| 0 <= i < j < w.entries.len() implies (
    #[trigger] w.entries[i]).record.ip != (#[trigger] w.entries[j]).record.ip by {
        let a = if i < k {
            i
        } else {
            i + 1
        };
        let b = if j < k {
            j
        } else {
            j + 1
        };
        assert(v.entries[a].record.ip != v.entries[b].record.ip);
    }
    assert forall|i: int| 0 <= i < w.entries.len() implies (has_id(
        w.timers,
        (#[trigger] w.entries[i]).record.id,
    ) <==> scheduled(w.entries[i])) && (scheduled(w.entries[i]) ==> deadline_of(
        w.timers,
        w.entries[i].record.id,
    ) >= w.entries[i].record.expires_at.unwrap()) by {
        let a = if i < k {
            i
        } else {
            i + 1
        };
        if a < k {
            assert(v.entries[a].record.id < v.entries[k].record.id);
        } else {
            assert(v.entries[k].record.id < v.entries[a].record.id);
        }
        assert(has_id(v.timers, v.entries[a].record.id) <==> scheduled(v.entries[a]));
    }
    assert forall|x: u64| #[trigger] has_id(w.timers, x) implies has_rule(w.entries, x) by {
        assert(x != id);
        assert(has_id(v.timers, x));
        let p = rule_position(v.entries, x);
        if p < k {
            assert(w.entries[p].record.id == x);
        } else {
            assert(w.entries[p - 1].record.id == x);
        }
    }
}

/// The rule of the nearest timer is in the store, active, and the timer is
/// the only one it has.
pub proof fn lemma_timer_rule(v: StoreView)
    requires
        v.wf(),
        v.timers.len() > 0,
    ensures
        has_rule(v.entries, v.timers[0].id),
        scheduled(v.entries[rule_position(v.entries, v.timers[0].id)]),
        without_id(v.timers, v.timers[0].id) == v.timers.drop_first(),
{
    let id = v.timers[0].id;
    lemma_id_position(v.timers, id, 0);
    assert(has_id(v.timers, id));
    let k = rule_position(v.entries, id);
    assert(has_id(v.timers, v.entries[k].record.id));
    assert(v.timers.remove(0) =~= v.timers.drop_first());
}

} // verus!
