//! Counters derived from a snapshot of the store and from what the backend
//! reports of itself.

use crate::record::{records_view, RuleRecord, RuleRecordView, RuleState};
use vstd::prelude::*;

verus! {

/// How many connections one blocking rule is taken to have stopped.
pub const CONNECTIONS_PER_BLOCKING_RULE: u64 = 100;

/// How many packets one rule is taken to have seen.
pub const PACKETS_PER_RULE: u64 = 1000;

/// The counters of the filter: the rules of the store that are in force, and
/// estimates of the traffic that the backend's rules have met.
#[derive(Debug, PartialEq, Eq)]
pub struct FirewallStats {
    pub active_rules: usize,
    pub blocked_connections: u64,
    pub total_packets: u64,
}

/// How many of the records are active.
pub open spec fn count_active(records: Seq<RuleRecordView>) -> nat
    decreases records.len(),
{
    if records.len() == 0 {
        0
    } else {
        count_active(records.drop_last()) + if records.last().state == RuleState::Active {
            1nat
        } else {
            0nat
        }
    }
}

/// `count` times `each`, or the greatest `u64` where that is less.
pub open spec fn estimate(count: u64, each: u64) -> u64 {
    if count * each > u64::MAX {
        u64::MAX
    } else {
        (count * each) as u64
    }
}

/// `count` times `each`, stopping at the greatest `u64`.
fn scale(count: u64, each: u64) -> (r: u64)
    ensures
        r == estimate(count, each),
{
    match count.checked_mul(each) {
        Some(v) => v,
        None => u64::MAX,
    }
}

/// The counters for a snapshot of the store and the backend's two rule
/// counts.
pub fn aggregate(snapshot: &Vec<RuleRecord>, rules: u64, blocking_rules: u64) -> (r: FirewallStats)
    ensures
        r.active_rules == count_active(records_view(snapshot@)),
        r.blocked_connections == estimate(blocking_rules, CONNECTIONS_PER_BLOCKING_RULE),
        r.total_packets == estimate(rules, PACKETS_PER_RULE),
{
    let ghost all = records_view(snapshot@);
    let mut active: usize = 0;
    let mut i: usize = 0;
    while i < snapshot.len()
        invariant
            i <= snapshot@.len(),
            all == records_view(snapshot@),
            active == count_active(all.take(i as int)),
            active <= i,
        decreases snapshot@.len() - i,
    {
        proof {
            let next = all.take(i + 1);
            assert(next.drop_last() =~= all.take(i as int));
            assert(next.last() == snapshot@[i as int]@);
        }
        if snapshot[i].state == RuleState::Active {
            active = active + 1;
        }
        i = i + 1;
    }
    assert(all.take(i as int) =~= all);
    FirewallStats {
        active_rules: active,
        blocked_connections: scale(blocking_rules, CONNECTIONS_PER_BLOCKING_RULE),
        total_packets: scale(rules, PACKETS_PER_RULE),
    }
}

} // verus!
