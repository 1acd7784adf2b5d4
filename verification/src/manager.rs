//! The rule store. It keeps at most one record for an address, holds a timer
//! for each record with a deadline, and moves a record through its life one
//! step at a time, so that a backend call can be made between two steps.

use crate::address::IpNet;
use crate::backend::RuleHandle;
use crate::codec::{entries_view, RuleEntry};
use crate::error::FirewallError;
use crate::gateway::str_view;
use crate::model::{
    has_ip, has_rule, ip_position, lemma_activate_wf, lemma_enter_wf, lemma_evict_wf,
    lemma_ip_position, lemma_resume_wf, lemma_rule_position, lemma_suspend_wf, lemma_timer_rule,
    retry_delay, rule_position, spec_retry_at, EntryView, RuleDraft, StoreView,
    MAX_RETRACT_ATTEMPTS, RETRY_BASE_MS, RETRY_CAP_MS,
};
use crate::reconcile::{stale_ips, wanted};
use crate::record::{records_view, RuleAction, RuleId, RuleOrigin, RuleRecord, RuleState};
use crate::scheduler::{due_count, ExpiryScheduler};
use vstd::prelude::*;

verus! {

/// A record with what the store keeps beside it.
struct Entry {
    record: RuleRecord,
    handle: Option<RuleHandle>,
    attempts: u32,
    parked: Option<u64>,
}

impl View for Entry {
    type V = EntryView;

    closed spec fn view(&self) -> EntryView {
        EntryView {
            record: self.record@,
            handle: match self.handle {
                Some(h) => Some(h@),
                None => None,
            },
            attempts: self.attempts as nat,
            parked: self.parked,
        }
    }
}

/// What `begin_block` found.
#[derive(Debug, PartialEq, Eq)]
pub enum BlockStage {
    /// The rule entered the store, pending: apply it at the backend, then
    /// confirm or abort it under `id`.
    Entered { id: RuleId },
    /// The address has a record already.
    Occupied,
    /// The store has no identifier left to give.
    Exhausted,
}

/// What `begin_retract` found.
#[derive(Debug, PartialEq, Eq)]
pub enum RetractStage {
    /// The record was active and is now expiring: retract `handle` at the
    /// backend, then confirm or abort under `id`.
    Retract { id: RuleId, handle: RuleHandle },
    /// A retraction of the record is under way already. To retract `handle`
    /// once more does no harm: confirm under `id` where it succeeds.
    Join { id: RuleId, handle: RuleHandle },
    /// The record was pending, which the backend never confirmed: it was
    /// discarded, and comes back as removed.
    Discarded(RuleRecord),
    /// The address has no record.
    Absent,
}

/// What became of a scheduled retraction that failed.
#[derive(Debug, PartialEq, Eq)]
pub enum RetryOutcome {
    /// The record is active again; where it has a deadline, the retraction
    /// is tried again at `at`.
    Retry { at: Option<u64> },
    /// The attempts are used up: the record was removed from the store though
    /// the backend may still hold its rule.
    Abandoned(RuleRecord),
    /// No retraction of that record was under way.
    Stale,
}

/// Whether `desired` asks for a block on `ip`.
pub fn is_wanted(desired: &Vec<RuleEntry>, ip: &IpNet) -> (r: bool)
    ensures
        r == wanted(entries_view(desired@), *ip),
{
    let mut i: usize = 0;
    while i < desired.len()
        invariant
            i <= desired@.len(),
            forall|j: int|
                0 <= j < i ==> !((#[trigger] entries_view(desired@)[j]).ip == *ip && entries_view(
                    desired@,
                )[j].action == RuleAction::Block),
        decreases desired@.len() - i,
    {
        if desired[i].ip == *ip && desired[i].action == RuleAction::Block {
            assert(entries_view(desired@)[i as int].ip == *ip);
            return true;
        }
        i = i + 1;
    }
    false
}

/// The store of rules. Its state is a `StoreView`.
pub struct FirewallManager {
    entries: Vec<Entry>,
    scheduler: ExpiryScheduler,
    next_id: RuleId,
}

impl View for FirewallManager {
    type V = StoreView;

    closed spec fn view(&self) -> StoreView {
        StoreView {
            entries: Seq::new(self.entries@.len(), |i: int| self.entries@[i]@),
            timers: self.scheduler@,
            next_id: self.next_id,
        }
    }
}

/// The wait before the next attempt, after `attempts` failed ones.
fn retry_delay_ms(attempts: u32) -> (r: u64)
    requires
        attempts <= MAX_RETRACT_ATTEMPTS,
    ensures
        r == retry_delay(attempts as nat),
        RETRY_BASE_MS <= r <= RETRY_CAP_MS,
{
    if attempts <= 1 {
        return RETRY_BASE_MS;
    }
    let mut delay: u64 = RETRY_BASE_MS;
    let mut i: u32 = 1;
    while i < attempts
        invariant
            1 <= i <= attempts,
            delay == retry_delay(i as nat),
            RETRY_BASE_MS <= delay <= RETRY_CAP_MS,
        decreases attempts - i,
    {
        i = i + 1;
        if 2 * delay > RETRY_CAP_MS {
            delay = RETRY_CAP_MS;
        } else {
            delay = 2 * delay;
        }
    }
    delay
}

impl FirewallManager {
    /// The store's invariant holds.
    pub open spec fn wf(&self) -> bool {
        self@.wf()
    }

    /// An empty store.
    pub fn new() -> (r: Result<FirewallManager, FirewallError>)
        ensures
            r matches Ok(m) && m@ == StoreView::empty() && m.wf(),
    {
        let m = FirewallManager {
            entries: Vec::new(),
            scheduler: ExpiryScheduler::new(),
            next_id: 1,
        };
        assert(m@.entries =~= Seq::<EntryView>::empty());
        Ok(m)
    }

    /// How many records the store holds.
    pub fn len(&self) -> (r: usize)
        ensures
            r == self@.entries.len(),
    {
        self.entries.len()
    }

    /// Whether the store has given out its last identifier.
    pub fn is_exhausted(&self) -> (r: bool)
        ensures
            r == (self@.next_id == u64::MAX),
    {
        self.next_id == u64::MAX
    }

    /// How many expirations are pending.
    pub fn timer_count(&self) -> (r: usize)
        ensures
            r == self@.timers.len(),
    {
        self.scheduler.len()
    }

    /// The deadline that comes first, if any rule has one.
    pub fn next_deadline(&self) -> (r: Option<u64>)
        ensures
            r == (if self@.timers.len() > 0 {
                Some(self@.timers[0].deadline)
            } else {
                None::<u64>
            }),
    {
        self.scheduler.next_deadline()
    }

    /// The records in the order they were made.
    pub fn snapshot(&self) -> (r: Vec<RuleRecord>)
        ensures
            records_view(r@) == self@.records(),
    {
        let mut out: Vec<RuleRecord> = Vec::new();
        let mut i: usize = 0;
        while i < self.entries.len()
            invariant
                i <= self.entries@.len(),
                out@.len() == i,
                forall|j: int| 0 <= j < i ==> (#[trigger] out@[j])@ == self@.entries[j].record,
            decreases self.entries@.len() - i,
        {
            out.push(self.entries[i].record.duplicate());
            i = i + 1;
        }
        assert(records_view(out@) =~= self@.records());
        out
    }

    /// Where the record for `ip` stands.
    fn find_ip(&self, ip: &IpNet) -> (r: Option<usize>)
        requires
            self.wf(),
        ensures
            match r {
                Some(k) => k < self@.entries.len() && has_ip(self@.entries, *ip) && ip_position(
                    self@.entries,
                    *ip,
                ) == k,
                None => !has_ip(self@.entries, *ip),
            },
    {
        let mut i: usize = 0;
        while i < self.entries.len()
            invariant
                i <= self.entries@.len(),
                self.wf(),
                forall|j: int| 0 <= j < i ==> (#[trigger] self@.entries[j]).record.ip != *ip,
            decreases self.entries@.len() - i,
        {
            if self.entries[i].record.ip == *ip {
                proof {
                    lemma_ip_position(self@, *ip, i as int);
                }
                return Some(i);
            }
            i = i + 1;
        }
        None
    }

    /// Where the record `id` stands.
    fn find_id(&self, id: RuleId) -> (r: Option<usize>)
        requires
            self.wf(),
        ensures
            match r {
                Some(k) => k < self@.entries.len() && has_rule(self@.entries, id)
                    && rule_position(self@.entries, id) == k,
                None => !has_rule(self@.entries, id),
            },
    {
        let mut i: usize = 0;
        while i < self.entries.len()
            invariant
                i <= self.entries@.len(),
                self.wf(),
                forall|j: int| 0 <= j < i ==> (#[trigger] self@.entries[j]).record.id != id,
            decreases self.entries@.len() - i,
        {
            if self.entries[i].record.id == id {
                proof {
                    lemma_rule_position(self@, id, i as int);
                }
                return Some(i);
            }
            i = i + 1;
        }
        None
    }

    /// The record for `ip`, if the store holds one.
    pub fn lookup(&self, ip: &IpNet) -> (r: Option<RuleRecord>)
        requires
            self.wf(),
        ensures
            r is Some <==> has_ip(self@.entries, *ip),
            r matches Some(rec) ==> rec@ == self@.entries[ip_position(self@.entries, *ip)].record,
    {
        match self.find_ip(ip) {
            Some(k) => Some(self.entries[k].record.duplicate()),
            None => None,
        }
    }

    /// The addresses of the active records that `desired` does not ask to
    /// block, in the order of the store.
    pub fn stale_ips(&self, desired: &Vec<RuleEntry>) -> (r: Vec<IpNet>)
        ensures
            r@ == stale_ips(self@.entries, entries_view(desired@)),
    {
        let ghost all = self@.entries;
        let ghost want = entries_view(desired@);
        let mut out: Vec<IpNet> = Vec::new();
        let mut i: usize = 0;
        assert(all.take(0) =~= Seq::<EntryView>::empty());
        while i < self.entries.len()
            invariant
                i <= self.entries@.len(),
                all == self@.entries,
                want == entries_view(desired@),
                out@ == stale_ips(all.take(i as int), want),
            decreases self.entries@.len() - i,
        {
            proof {
                let next = all.take(i + 1);
                assert(next.drop_last() =~= all.take(i as int));
                assert(next.last() == all[i as int]);
            }
            if self.entries[i].record.state == RuleState::Active && !is_wanted(
                desired,
                &self.entries[i].record.ip,
            ) {
                out.push(self.entries[i].record.ip);
            }
            i = i + 1;
        }
        assert(all.take(i as int) =~= all);
        out
    }

    /// Takes a new block rule into the store, pending, where its address has
    /// no record yet.
    pub fn begin_block(
        &mut self,
        ip: IpNet,
        reason: Option<&str>,
        created_at: u64,
        expires_at: Option<u64>,
        origin: RuleOrigin,
    ) -> (r: BlockStage)
        requires
            old(self).wf(),
            ip.wf(),
        ensures
            final(self).wf(),
            match r {
                BlockStage::Entered { id } => {
                    &&& !has_ip(old(self)@.entries, ip)
                    &&& id == old(self)@.next_id
                    &&& id < u64::MAX
                    &&& final(self)@ == old(self)@.enter(
                        RuleDraft { ip, reason: str_view(reason), created_at, expires_at, origin },
                    )
                },
                BlockStage::Occupied => has_ip(old(self)@.entries, ip) && final(self)@ == old(
                    self,
                )@,
                BlockStage::Exhausted => !has_ip(old(self)@.entries, ip) && old(self)@.next_id
                    == u64::MAX && final(self)@ == old(self)@,
            },
    {
        if self.find_ip(&ip).is_some() {
            return BlockStage::Occupied;
        }
        if self.next_id == u64::MAX {
            return BlockStage::Exhausted;
        }
        let id = self.enter_rule(ip, reason, created_at, expires_at, origin);
        BlockStage::Entered { id }
    }

    /// Puts a new block rule last, pending, under the next identifier.
    pub(crate) fn enter_rule(
        &mut self,
        ip: IpNet,
        reason: Option<&str>,
        created_at: u64,
        expires_at: Option<u64>,
        origin: RuleOrigin,
    ) -> (id: RuleId)
        requires
            old(self).wf(),
            ip.wf(),
            !has_ip(old(self)@.entries, ip),
            old(self)@.next_id < u64::MAX,
        ensures
            final(self).wf(),
            id == old(self)@.next_id,
            final(self)@ == old(self)@.enter(
                RuleDraft { ip, reason: str_view(reason), created_at, expires_at, origin },
            ),
    {
        let id = self.next_id;
        let ghost draft = RuleDraft {
            ip,
            reason: str_view(reason),
            created_at,
            expires_at,
            origin,
        };
        let text = match reason {
            Some(t) => Some(t.to_owned()),
            None => None,
        };
        let entry = Entry {
            record: RuleRecord {
                id,
                ip,
                action: RuleAction::Block,
                created_at,
                expires_at,
                reason: text,
                origin,
                state: RuleState::Pending,
            },
            handle: None,
            attempts: 0,
            parked: None,
        };
        proof {
            lemma_enter_wf(self@, draft);
            assert(entry@ == self@.pending_entry(draft));
        }
        self.entries.push(entry);
        self.next_id = id + 1;
        assert(self@.entries =~= old(self)@.enter(draft).entries);
        id
    }

    /// The backend confirmed the pending rule `id` under `handle`: the rule
    /// is active and its deadline scheduled. Where no such rule is pending,
    /// the store stays as it is and the handle comes back.
    pub fn confirm_block(&mut self, id: RuleId, handle: RuleHandle) -> (r: Result<
        (),
        RuleHandle,
    >)
        requires
            old(self).wf(),
        ensures
            final(self).wf(),
            match r {
                Ok(_) => {
                    let k = rule_position(old(self)@.entries, id);
                    &&& has_rule(old(self)@.entries, id)
                    &&& old(self)@.entries[k].record.state == RuleState::Pending
                    &&& final(self)@ == old(self)@.activate(k, handle@)
                },
                Err(h) => {
                    &&& h == handle
                    &&& final(self)@ == old(self)@
                    &&& !(has_rule(old(self)@.entries, id) && old(self)@.entries[rule_position(
                        old(self)@.entries,
                        id,
                    )].record.state == RuleState::Pending)
                },
            },
    {
        let k = match self.find_id(id) {
            Some(k) => k,
            None => {
                return Err(handle);
            },
        };
        if self.entries[k].record.state != RuleState::Pending {
            return Err(handle);
        }
        proof {
            lemma_activate_wf(self@, k as int, handle@);
        }
        let expires_at = self.entries[k].record.expires_at;
        self.entries[k].record.state = RuleState::Active;
        self.entries[k].handle = Some(handle);
        match expires_at {
            Some(deadline) => {
                self.scheduler.schedule(id, deadline);
            },
            None => {},
        }
        assert(self@.entries =~= old(self)@.activate(k as int, handle@).entries);
        Ok(())
    }

    /// The backend refused the pending rule `id`: the rule is discarded.
    /// Says whether such a rule was pending.
    pub fn abort_block(&mut self, id: RuleId) -> (r: bool)
        requires
            old(self).wf(),
        ensures
            final(self).wf(),
            r == (has_rule(old(self)@.entries, id) && old(self)@.entries[rule_position(
                old(self)@.entries,
                id,
            )].record.state == RuleState::Pending),
            final(self)@ == (if r {
                old(self)@.evict(rule_position(old(self)@.entries, id))
            } else {
                old(self)@
            }),
    {
        let k = match self.find_id(id) {
            Some(k) => k,
            None => {
                return false;
            },
        };
        if self.entries[k].record.state != RuleState::Pending {
            return false;
        }
        self.evict_at(k);
        true
    }

    /// Removes the entry at `k` and its timer.
    fn evict_at(&mut self, k: usize) -> (r: RuleRecord)
        requires
            old(self).wf(),
            k < old(self)@.entries.len(),
        ensures
            final(self).wf(),
            final(self)@ == old(self)@.evict(k as int),
            r@ == old(self)@.entries[k as int].record.with_state(RuleState::Removed),
    {
        proof {
            lemma_evict_wf(self@, k as int);
        }
        let id = self.entries[k].record.id;
        self.scheduler.cancel(id);
        let entry = self.entries.remove(k);
        assert(self@.entries =~= old(self)@.evict(k as int).entries);
        let mut record = entry.record;
        record.state = RuleState::Removed;
        record
    }

    /// The state of the record for `ip`, if the store holds one.
    pub fn state_of(&self, ip: &IpNet) -> (r: Option<RuleState>)
        requires
            self.wf(),
        ensures
            r is Some <==> has_ip(self@.entries, *ip),
            r matches Some(state) ==> state == self@.entries[ip_position(
                self@.entries,
                *ip,
            )].record.state,
    {
        match self.find_ip(ip) {
            Some(k) => Some(self.entries[k].record.state),
            None => None,
        }
    }

    /// Starts the retraction of the rule for `ip`. An active record becomes
    /// expiring and loses its timer; a pending record is discarded at once;
    /// a record that is expiring already stays as it is.
    pub fn begin_retract(&mut self, ip: &IpNet) -> (r: RetractStage)
        requires
            old(self).wf(),
        ensures
            final(self).wf(),
            match r {
                RetractStage::Retract { id, handle } => {
                    let k = ip_position(old(self)@.entries, *ip);
                    &&& has_ip(old(self)@.entries, *ip)
                    &&& old(self)@.entries[k].record.state == RuleState::Active
                    &&& id == old(self)@.entries[k].record.id
                    &&& Some(handle@) == old(self)@.entries[k].handle
                    &&& final(self)@ == old(self)@.suspend(k)
                },
                RetractStage::Join { id, handle } => {
                    let k = ip_position(old(self)@.entries, *ip);
                    &&& has_ip(old(self)@.entries, *ip)
                    &&& old(self)@.entries[k].record.state == RuleState::Expiring
                    &&& id == old(self)@.entries[k].record.id
                    &&& Some(handle@) == old(self)@.entries[k].handle
                    &&& final(self)@ == old(self)@
                },
                RetractStage::Discarded(record) => {
                    let k = ip_position(old(self)@.entries, *ip);
                    &&& has_ip(old(self)@.entries, *ip)
                    &&& old(self)@.entries[k].record.state == RuleState::Pending
                    &&& record@ == old(self)@.entries[k].record.with_state(RuleState::Removed)
                    &&& final(self)@ == old(self)@.evict(k)
                },
                RetractStage::Absent => !has_ip(old(self)@.entries, *ip) && final(self)@ == old(
                    self,
                )@,
            },
    {
        let k = match self.find_ip(ip) {
            Some(k) => k,
            None => {
                return RetractStage::Absent;
            },
        };
        proof {
            assert(crate::model::entry_ok(self@.entries[k as int]));
        }
        if self.entries[k].record.state == RuleState::Pending {
            return RetractStage::Discarded(self.evict_at(k));
        }
        if self.entries[k].record.state == RuleState::Active {
            let (id, handle) = self.suspend_at(k);
            return RetractStage::Retract { id, handle };
        }
        let id = self.entries[k].record.id;
        let handle = match &self.entries[k].handle {
            Some(h) => h.duplicate(),
            None => RuleHandle { token: String::new() },
        };
        RetractStage::Join { id, handle }
    }

    /// Marks the active entry at `k` expiring, cancels its timer and keeps
    /// the timer's deadline with the entry.
    fn suspend_at(&mut self, k: usize) -> (r: (RuleId, RuleHandle))
        requires
            old(self).wf(),
            k < old(self)@.entries.len(),
            old(self)@.entries[k as int].record.state == RuleState::Active,
        ensures
            final(self).wf(),
            final(self)@ == old(self)@.suspend(k as int),
            r.0 == old(self)@.entries[k as int].record.id,
            Some(r.1@) == old(self)@.entries[k as int].handle,
    {
        proof {
            lemma_suspend_wf(self@, k as int);
            assert(crate::model::entry_ok(self@.entries[k as int]));
        }
        let id = self.entries[k].record.id;
        let handle = match &self.entries[k].handle {
            Some(h) => h.duplicate(),
            None => RuleHandle { token: String::new() },
        };
        let parked = self.scheduler.deadline_for(id);
        self.scheduler.cancel(id);
        self.entries[k].record.state = RuleState::Expiring;
        self.entries[k].parked = parked;
        assert(self@.entries =~= old(self)@.suspend(k as int).entries);
        (id, handle)
    }

    /// The backend retracted the expiring rule `id`: the record leaves the
    /// store and comes back as removed. `None` where no retraction of that
    /// rule was under way.
    pub fn confirm_retract(&mut self, id: RuleId) -> (r: Option<RuleRecord>)
        requires
            old(self).wf(),
        ensures
            final(self).wf(),
            r is Some <==> has_rule(old(self)@.entries, id) && old(self)@.entries[rule_position(
                old(self)@.entries,
                id,
            )].record.state == RuleState::Expiring,
            match r {
                Some(rec) => {
                    let k = rule_position(old(self)@.entries, id);
                    &&& final(self)@ == old(self)@.evict(k)
                    &&& rec@ == old(self)@.entries[k].record.with_state(RuleState::Removed)
                },
                None => final(self)@ == old(self)@,
            },
    {
        let k = match self.find_id(id) {
            Some(k) => k,
            None => {
                return None;
            },
        };
        if self.entries[k].record.state != RuleState::Expiring {
            return None;
        }
        Some(self.evict_at(k))
    }

    /// The backend failed to retract the expiring rule `id` on request: the
    /// record is active again, and the timer that was taken from it when the
    /// retraction began is put back where it stood. Says whether a
    /// retraction of that rule was under way.
    pub fn abort_retract(&mut self, id: RuleId) -> (r: bool)
        requires
            old(self).wf(),
        ensures
            final(self).wf(),
            r == (has_rule(old(self)@.entries, id) && old(self)@.entries[rule_position(
                old(self)@.entries,
                id,
            )].record.state == RuleState::Expiring),
            final(self)@ == (if r {
                let k = rule_position(old(self)@.entries, id);
                old(self)@.resume(
                    k,
                    old(self)@.entries[k].parked,
                    old(self)@.entries[k].attempts,
                )
            } else {
                old(self)@
            }),
    {
        let k = match self.find_id(id) {
            Some(k) => k,
            None => {
                return false;
            },
        };
        if self.entries[k].record.state != RuleState::Expiring {
            return false;
        }
        let fire_at = self.entries[k].parked;
        let attempts = self.entries[k].attempts;
        proof {
            assert(crate::model::entry_ok(self@.entries[k as int]));
        }
        self.resume_at(k, fire_at, attempts);
        true
    }

    /// Makes the expiring entry at `k` active again.
    fn resume_at(&mut self, k: usize, fire_at: Option<u64>, attempts: u32)
        requires
            old(self).wf(),
            k < old(self)@.entries.len(),
            old(self)@.entries[k as int].record.state == RuleState::Expiring,
            attempts < MAX_RETRACT_ATTEMPTS,
            fire_at is Some <==> old(self)@.entries[k as int].record.expires_at is Some,
            fire_at is Some ==> fire_at.unwrap() >= old(
                self,
            )@.entries[k as int].record.expires_at.unwrap(),
        ensures
            final(self).wf(),
            final(self)@ == old(self)@.resume(k as int, fire_at, attempts as nat),
    {
        proof {
            lemma_resume_wf(self@, k as int, fire_at, attempts as nat);
            assert(crate::model::entry_ok(self@.entries[k as int]));
            assert(!crate::model::scheduled(self@.entries[k as int]));
        }
        let id = self.entries[k].record.id;
        self.entries[k].record.state = RuleState::Active;
        self.entries[k].attempts = attempts;
        self.entries[k].parked = None;
        match fire_at {
            Some(deadline) => {
                self.scheduler.schedule(id, deadline);
            },
            None => {},
        }
        assert(self@.entries =~= old(self)@.resume(k as int, fire_at, attempts as nat).entries);
    }

    /// Takes the rule whose deadline comes first, if that deadline has come:
    /// the rule is expiring and its handle is to be retracted.
    pub fn begin_expiry(&mut self, now: u64) -> (r: Option<(RuleId, RuleHandle)>)
        requires
            old(self).wf(),
        ensures
            final(self).wf(),
            match r {
                Some((id, handle)) => {
                    let k = rule_position(old(self)@.entries, id);
                    &&& old(self)@.timers.len() > 0
                    &&& old(self)@.timers[0].deadline <= now
                    &&& id == old(self)@.timers[0].id
                    &&& has_rule(old(self)@.entries, id)
                    &&& old(self)@.entries[k].record.state == RuleState::Active
                    &&& Some(handle@) == old(self)@.entries[k].handle
                    &&& final(self)@ == old(self)@.suspend(k)
                    &&& final(self)@.timers == old(self)@.timers.drop_first()
                },
                None => final(self)@ == old(self)@ && due_count(old(self)@.timers, now) == 0,
            },
    {
        let due = match self.scheduler.next_deadline() {
            Some(deadline) => deadline <= now,
            None => false,
        };
        if !due {
            return None;
        }
        proof {
            lemma_timer_rule(self@);
        }
        let id = match self.scheduler.peek() {
            Some(timer) => timer.id,
            None => {
                return None;
            },
        };
        let k = match self.find_id(id) {
            Some(k) => k,
            None => {
                return None;
            },
        };
        let (id, handle) = self.suspend_at(k);
        Some((id, handle))
    }

    /// A scheduled retraction of the expiring rule `id` failed. The rule is
    /// active again and the retraction is tried again after a wait that
    /// doubles with each failure; after the last attempt the record is given
    /// up and leaves the store.
    pub fn retry_expiry(&mut self, id: RuleId, now: u64) -> (r: RetryOutcome)
        requires
            old(self).wf(),
        ensures
            final(self).wf(),
            match r {
                RetryOutcome::Stale => {
                    &&& final(self)@ == old(self)@
                    &&& !(has_rule(old(self)@.entries, id) && old(self)@.entries[rule_position(
                        old(self)@.entries,
                        id,
                    )].record.state == RuleState::Expiring)
                },
                RetryOutcome::Retry { at } => {
                    let k = rule_position(old(self)@.entries, id);
                    let e = old(self)@.entries[k];
                    &&& has_rule(old(self)@.entries, id)
                    &&& e.record.state == RuleState::Expiring
                    &&& at == spec_retry_at(e, now)
                    &&& (e.record.expires_at is Some ==> at is Some)
                    &&& final(self)@ == old(self)@.resume(
                        k,
                        at,
                        if at is Some {
                            e.attempts + 1
                        } else {
                            e.attempts
                        },
                    )
                },
                RetryOutcome::Abandoned(rec) => {
                    let k = rule_position(old(self)@.entries, id);
                    let e = old(self)@.entries[k];
                    &&& has_rule(old(self)@.entries, id)
                    &&& e.record.state == RuleState::Expiring
                    &&& e.record.expires_at is Some
                    &&& spec_retry_at(e, now) is None
                    &&& final(self)@ == old(self)@.evict(k)
                    &&& rec@ == e.record.with_state(RuleState::Removed)
                },
            },
    {
        let k = match self.find_id(id) {
            Some(k) => k,
            None => {
                return RetryOutcome::Stale;
            },
        };
        if self.entries[k].record.state != RuleState::Expiring {
            return RetryOutcome::Stale;
        }
        proof {
            assert(crate::model::entry_ok(self@.entries[k as int]));
        }
        let deadline = match self.entries[k].record.expires_at {
            Some(d) => d,
            None => {
                let attempts = self.entries[k].attempts;
                self.resume_at(k, None, attempts);
                return RetryOutcome::Retry { at: None };
            },
        };
        let attempts = self.entries[k].attempts + 1;
        if attempts >= MAX_RETRACT_ATTEMPTS {
            return RetryOutcome::Abandoned(self.evict_at(k));
        }
        let delay = retry_delay_ms(attempts);
        let at = match now.checked_add(delay) {
            Some(t) => if t < deadline {
                deadline
            } else {
                t
            },
            None => {
                return RetryOutcome::Abandoned(self.evict_at(k));
            },
        };
        self.resume_at(k, Some(at), attempts);
        RetryOutcome::Retry { at: Some(at) }
    }
}

} // verus!
