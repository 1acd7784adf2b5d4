//! The requests on the store, each carried through against a backend: block,
//! allow, the scheduler's pass over the deadlines that have come, the profile
//! switches and the counters.

use crate::address::{spec_parse_ipnet, IpNet};
use crate::backend::{BackendAdapter, BackendError};
use crate::error::{FirewallError, ValidationError};
use crate::gateway::{str_view, BackendEvent, Gateway};
use crate::manager::{FirewallManager, RetractStage, RetryOutcome};
use crate::model::{
    ip_position, lemma_retry_delay_bounds, lemma_rule_position, rule_position, scheduled,
    RuleDraft,
};
use crate::protocol::{
    allow_model, block_model, events_since, expire_run, lemma_entered_last, lemma_evicted,
    lemma_suspended_position, spec_deadline, Outcome,
};
use crate::record::{records_view, RuleId, RuleOrigin, RuleRecord};
use crate::scheduler::{due_count, lemma_id_position, lemma_with_timer, lemma_without_id, Timer};
use crate::stats::{
    aggregate, count_active, estimate, FirewallStats, CONNECTIONS_PER_BLOCKING_RULE,
    PACKETS_PER_RULE,
};
use vstd::prelude::*;

verus! {

/// What a pass of the scheduler did.
#[derive(Debug)]
pub struct ExpiryReport {
    /// The records whose rules were retracted, now removed.
    pub removed: Vec<RuleRecord>,
    /// The records given up after the last failed attempt, now removed.
    pub abandoned: Vec<RuleRecord>,
    /// How many retractions failed and will be tried again.
    pub retried: usize,
}

/// When a rule made at `now` expires that lasts `duration` seconds.
pub fn deadline_after(now: u64, duration: Option<u64>) -> (r: Option<Option<u64>>)
    ensures
        r == spec_deadline(now, duration),
{
    match duration {
        None => Some(None),
        Some(secs) => match secs.checked_mul(1000) {
            None => None,
            Some(ms) => match now.checked_add(ms) {
                None => None,
                Some(t) => Some(Some(t)),
            },
        },
    }
}

/// A history is a prefix of what it grows to, and the calls since are the
/// difference.
proof fn lemma_events_pushed(before: Seq<BackendEvent>, now: Seq<BackendEvent>, ev: BackendEvent)
    requires
        before.is_prefix_of(now),
    ensures
        before.is_prefix_of(now.push(ev)),
        events_since(before, now.push(ev)) == events_since(before, now).push(ev),
        events_since(before, before) == Seq::<BackendEvent>::empty(),
{
    assert(events_since(before, now.push(ev)) =~= events_since(before, now).push(ev));
    assert(events_since(before, before) =~= Seq::<BackendEvent>::empty());
}

/// A backend's answer as the result of a request.
pub open spec fn lift_answer(answer: Result<(), BackendError>) -> Result<(), FirewallError> {
    match answer {
        Ok(done) => Ok(done),
        Err(err) => Err(FirewallError::Backend(err)),
    }
}

impl FirewallManager {
    /// Removes the block on `ip`. An address without a record is no error:
    /// the call succeeds with `false`, changes nothing and asks nothing of
    /// the backend.
    pub fn allow_ip<B: BackendAdapter>(&mut self, gateway: &mut Gateway<B>, ip: &str) -> (r: Result<
        bool,
        FirewallError,
    >)
        requires
            old(self).wf(),
        ensures
            final(self).wf(),
            old(gateway).history().is_prefix_of(final(gateway).history()),
            allow_model(
                old(self)@,
                spec_parse_ipnet(ip@),
                events_since(old(gateway).history(), final(gateway).history()),
            ) == (Outcome {
                store: final(self)@,
                result: r,
                used: events_since(old(gateway).history(), final(gateway).history()).len(),
                valid: true,
            }),
    {
        let ghost h0 = gateway.history();
        let ghost v0 = self@;
        proof {
            assert(events_since(h0, h0) =~= Seq::<BackendEvent>::empty());
        }
        let addr = match IpNet::parse(ip) {
            Some(a) => a,
            None => {
                return Err(FirewallError::Validation(ValidationError::InvalidAddress));
            },
        };
        match self.begin_retract(&addr) {
            RetractStage::Absent => Ok(false),
            RetractStage::Discarded(_) => Ok(true),
            RetractStage::Retract { id, handle } => {
                let ghost k = ip_position(v0.entries, addr);
                proof {
                    lemma_suspended_position(v0, k);
                }
                let answer = gateway.retract(&handle);
                proof {
                    let ev = BackendEvent::Retract { handle: handle@, result: answer };
                    lemma_events_pushed(h0, h0, ev);
                    assert(events_since(h0, gateway.history())[0] == ev);
                }
                match answer {
                    Ok(_) => {
                        let _ = self.confirm_retract(id);
                        Ok(true)
                    },
                    Err(err) => {
                        let _ = self.abort_retract(id);
                        Err(FirewallError::Backend(err))
                    },
                }
            },
            RetractStage::Join { id, handle } => {
                let ghost k = ip_position(v0.entries, addr);
                proof {
                    lemma_rule_position(v0, id, k);
                }
                let answer = gateway.retract(&handle);
                proof {
                    let ev = BackendEvent::Retract { handle: handle@, result: answer };
                    lemma_events_pushed(h0, h0, ev);
                    assert(events_since(h0, gateway.history())[0] == ev);
                }
                match answer {
                    Ok(_) => {
                        let _ = self.confirm_retract(id);
                        Ok(true)
                    },
                    Err(err) => Err(FirewallError::Backend(err)),
                }
            },
        }
    }

    /// Blocks `ip`, for `duration` seconds or, without a duration, until the
    /// block is removed. A record that the address has already is retracted
    /// first. Gives the identifier of the new record.
    pub fn block_ip<B: BackendAdapter>(
        &mut self,
        gateway: &mut Gateway<B>,
        ip: &str,
        duration: Option<u64>,
        reason: Option<&str>,
        now: u64,
    ) -> (r: Result<RuleId, FirewallError>)
        requires
            old(self).wf(),
        ensures
            final(self).wf(),
            old(gateway).history().is_prefix_of(final(gateway).history()),
            block_model(
                old(self)@,
                spec_parse_ipnet(ip@),
                spec_deadline(now, duration),
                str_view(reason),
                now,
                events_since(old(gateway).history(), final(gateway).history()),
            ) == (Outcome {
                store: final(self)@,
                result: r,
                used: events_since(old(gateway).history(), final(gateway).history()).len(),
                valid: true,
            }),
    {
        let ghost h0 = gateway.history();
        let ghost v0 = self@;
        proof {
            assert(events_since(h0, h0) =~= Seq::<BackendEvent>::empty());
        }
        let addr = match IpNet::parse(ip) {
            Some(a) => a,
            None => {
                return Err(FirewallError::Validation(ValidationError::InvalidAddress));
            },
        };
        let expires_at = match deadline_after(now, duration) {
            Some(d) => d,
            None => {
                return Err(FirewallError::Validation(ValidationError::InvalidDuration));
            },
        };
        if self.is_exhausted() {
            return Err(FirewallError::Exhausted);
        }
        let ghost draft = RuleDraft {
            ip: addr,
            reason: str_view(reason),
            created_at: now,
            expires_at,
            origin: RuleOrigin::Manual,
        };
        match self.begin_retract(&addr) {
            RetractStage::Absent => {},
            RetractStage::Discarded(_) => {
                proof {
                    lemma_evicted(v0, ip_position(v0.entries, addr));
                }
            },
            RetractStage::Retract { id, handle } => {
                let ghost k = ip_position(v0.entries, addr);
                proof {
                    lemma_suspended_position(v0, k);
                }
                let answer = gateway.retract(&handle);
                proof {
                    let ev = BackendEvent::Retract { handle: handle@, result: answer };
                    lemma_events_pushed(h0, h0, ev);
                    assert(events_since(h0, gateway.history())[0] == ev);
                }
                match answer {
                    Ok(_) => {
                        let _ = self.confirm_retract(id);
                    },
                    Err(err) => {
                        let _ = self.abort_retract(id);
                        return Err(FirewallError::Backend(err));
                    },
                }
            },
            RetractStage::Join { id, handle } => {
                let ghost k = ip_position(v0.entries, addr);
                proof {
                    lemma_rule_position(v0, id, k);
                    lemma_evicted(v0, k);
                }
                let answer = gateway.retract(&handle);
                proof {
                    let ev = BackendEvent::Retract { handle: handle@, result: answer };
                    lemma_events_pushed(h0, h0, ev);
                    assert(events_since(h0, gateway.history())[0] == ev);
                }
                match answer {
                    Ok(_) => {
                        let _ = self.confirm_retract(id);
                    },
                    Err(err) => {
                        return Err(FirewallError::Backend(err));
                    },
                }
            },
        }
        let ghost v1 = self@;
        let ghost h1 = gateway.history();
        proof {
            lemma_entered_last(v1, draft);
        }
        let id = self.enter_rule(addr, reason, now, expires_at, RuleOrigin::Manual);
        let answer = gateway.apply_block(&addr, reason);
        proof {
            lemma_events_pushed(h0, h1, gateway.history().last());
            let events = events_since(h0, gateway.history());
            assert(events.last() == gateway.history().last());
        }
        match answer {
            Ok(handle) => {
                let _ = self.confirm_block(id, handle);
                Ok(id)
            },
            Err(err) => {
                let _ = self.abort_block(id);
                Err(FirewallError::Backend(err))
            },
        }
    }

    /// Retracts every rule whose deadline has come at `now`, nearest deadline
    /// first. A rule that the backend fails to retract is tried again later;
    /// after the last attempt it is given up.
    pub fn expire_due<B: BackendAdapter>(&mut self, gateway: &mut Gateway<B>, now: u64) -> (report:
        ExpiryReport)
        requires
            old(self).wf(),
        ensures
            final(self).wf(),
            old(gateway).history().is_prefix_of(final(gateway).history()),
            ({
                let events = events_since(old(gateway).history(), final(gateway).history());
                let run = expire_run(old(self)@, now, events);
                &&& run.valid
                &&& final(self)@ == run.store
                &&& records_view(report.removed@) == run.removed
                &&& records_view(report.abandoned@) == run.abandoned
                &&& report.retried == run.retried
                &&& events.len() == due_count(old(self)@.timers, now)
                &&& due_count(final(self)@.timers, now) == 0
            }),
    {
        let ghost h0 = gateway.history();
        let ghost v0 = self@;
        let mut removed: Vec<RuleRecord> = Vec::new();
        let mut abandoned: Vec<RuleRecord> = Vec::new();
        let mut retried: usize = 0;
        let bound = self.timer_count();
        proof {
            assert(events_since(h0, h0) =~= Seq::<BackendEvent>::empty());
            assert(records_view(removed@) =~= Seq::empty());
            assert(records_view(abandoned@) =~= Seq::empty());
            crate::scheduler::lemma_due_count_sorted(v0.timers, now);
        }
        loop
            invariant
                self.wf(),
                h0.is_prefix_of(gateway.history()),
                expire_run(v0, now, events_since(h0, gateway.history())).valid,
                self@ == expire_run(v0, now, events_since(h0, gateway.history())).store,
                records_view(removed@) == expire_run(
                    v0,
                    now,
                    events_since(h0, gateway.history()),
                ).removed,
                records_view(abandoned@) == expire_run(
                    v0,
                    now,
                    events_since(h0, gateway.history()),
                ).abandoned,
                retried == expire_run(v0, now, events_since(h0, gateway.history())).retried,
                events_since(h0, gateway.history()).len() + due_count(self@.timers, now)
                    == due_count(v0.timers, now),
                retried <= events_since(h0, gateway.history()).len(),
                due_count(v0.timers, now) <= bound,
            ensures
                due_count(self@.timers, now) == 0,
            decreases due_count(self@.timers, now),
        {
            let ghost cur = self@;
            let ghost h = gateway.history();
            let ghost events = events_since(h0, h);
            let ghost run = expire_run(v0, now, events);
            let (id, handle) = match self.begin_expiry(now) {
                Some(job) => job,
                None => {
                    break ;
                },
            };
            let ghost k = rule_position(cur.entries, id);
            let ghost e = cur.entries[k];
            proof {
                lemma_suspended_position(cur, k);
                lemma_id_position(cur.timers, id, 0);
                lemma_without_id(cur.timers, id);
                assert(scheduled(e));
                lemma_without_id(cur.timers.drop_first(), id);
                lemma_retry_delay_bounds(e.attempts + 1);
            }
            let answer = gateway.retract(&handle);
            let ghost ev = BackendEvent::Retract { handle: handle@, result: answer };
            proof {
                lemma_events_pushed(h0, h, ev);
                let grown = events.push(ev);
                assert(grown.drop_last() =~= events);
                assert(grown.last() == ev);
            }
            match answer {
                Ok(_) => {
                    match self.confirm_retract(id) {
                        Some(record) => {
                            proof {
                                assert(records_view(removed@.push(record)) =~= records_view(
                                    removed@,
                                ).push(record@));
                            }
                            removed.push(record);
                        },
                        None => {},
                    }
                },
                Err(_) => {
                    match self.retry_expiry(id, now) {
                        RetryOutcome::Retry { at } => {
                            proof {
                                lemma_with_timer(
                                    cur.timers.drop_first(),
                                    Timer { deadline: at.unwrap(), id },
                                );
                            }
                            retried = retried + 1;
                        },
                        RetryOutcome::Abandoned(record) => {
                            proof {
                                assert(records_view(abandoned@.push(record)) =~= records_view(
                                    abandoned@,
                                ).push(record@));
                            }
                            abandoned.push(record);
                        },
                        RetryOutcome::Stale => {},
                    }
                },
            }
        }
        ExpiryReport { removed, abandoned, retried }
    }

    /// Switches the whole filter on.
    pub fn enable<B: BackendAdapter>(&mut self, gateway: &mut Gateway<B>) -> (r: Result<
        (),
        FirewallError,
    >)
        ensures
            final(self)@ == old(self)@,
            final(gateway).history().len() == old(gateway).history().len() + 1,
            final(gateway).history().drop_last() == old(gateway).history(),
            final(gateway).history().last() matches BackendEvent::AllowProfile { result }
                && r == lift_answer(result),
    {
        let answer = gateway.apply_allow_profile();
        proof {
            assert(gateway.history().drop_last() =~= old(gateway).history());
        }
        match answer {
            Ok(done) => Ok(done),
            Err(err) => Err(FirewallError::Backend(err)),
        }
    }

    /// Switches the whole filter off.
    pub fn disable<B: BackendAdapter>(&mut self, gateway: &mut Gateway<B>) -> (r: Result<
        (),
        FirewallError,
    >)
        ensures
            final(self)@ == old(self)@,
            final(gateway).history().len() == old(gateway).history().len() + 1,
            final(gateway).history().drop_last() == old(gateway).history(),
            final(gateway).history().last() matches BackendEvent::DenyProfile { result }
                && r == lift_answer(result),
    {
        let answer = gateway.apply_deny_profile();
        proof {
            assert(gateway.history().drop_last() =~= old(gateway).history());
        }
        match answer {
            Ok(done) => Ok(done),
            Err(err) => Err(FirewallError::Backend(err)),
        }
    }

    /// The counters: the active rules of the store, and estimates from the
    /// two rule counts that the backend reports.
    pub fn get_stats<B: BackendAdapter>(&self, gateway: &mut Gateway<B>) -> (r: Result<
        FirewallStats,
        FirewallError,
    >)
        ensures
            r is Ok,
            final(gateway).history().len() == old(gateway).history().len() + 2,
            ({
                let stats = r.unwrap();
                let h = final(gateway).history();
                let n = old(gateway).history().len() as int;
                &&& h.subrange(0, n) == old(gateway).history()
                &&& h[n] == (BackendEvent::CountRules { count: h[n]->CountRules_count })
                &&& h[n + 1] == (BackendEvent::CountBlockingRules {
                    count: h[n + 1]->CountBlockingRules_count,
                })
                &&& stats.active_rules == count_active(self@.records())
                &&& stats.total_packets == estimate(h[n]->CountRules_count, PACKETS_PER_RULE)
                &&& stats.blocked_connections == estimate(
                    h[n + 1]->CountBlockingRules_count,
                    CONNECTIONS_PER_BLOCKING_RULE,
                )
            }),
    {
        let ghost h0 = gateway.history();
        let rules = gateway.count_rules();
        let blocking = gateway.count_blocking_rules();
        let snapshot = self.snapshot();
        proof {
            assert(gateway.history().subrange(0, h0.len() as int) =~= h0);
        }
        Ok(aggregate(&snapshot, rules, blocking))
    }
}

} // verus!
