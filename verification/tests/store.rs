use d_shark::backend::{BackendAdapter, BackendError, RuleHandle};
use d_shark::driver::deadline_after;
use d_shark::error::{FirewallError, ValidationError};
use d_shark::gateway::Gateway;
use d_shark::manager::{BlockStage, FirewallManager, RetractStage, RetryOutcome};
use d_shark::record::{RuleAction, RuleOrigin, RuleRecord, RuleState};
use d_shark::{Ip4Net, IpNet};

/// What a test backend was asked to do.
#[derive(Debug, Clone, PartialEq, Eq)]
enum Call {
    Apply(String, Option<String>),
    Retract(String),
    AllowProfile,
    DenyProfile,
    CountRules,
    CountBlocking,
}

/// A backend that records its calls and fails on request.
#[derive(Debug, Default)]
struct Recorder {
    calls: Vec<Call>,
    applied: u64,
    fail_apply: bool,
    fail_retract: bool,
    fail_profile: bool,
    rules: u64,
    blocking: u64,
}

impl Recorder {
    fn retractions(&self) -> usize {
        self.calls.iter().filter(|c| matches!(c, Call::Retract(_))).count()
    }

    fn applications(&self) -> usize {
        self.calls.iter().filter(|c| matches!(c, Call::Apply(_, _))).count()
    }
}

impl BackendAdapter for Recorder {
    fn apply_block(&mut self, ip: &IpNet, reason: Option<&str>) -> Result<RuleHandle, BackendError> {
        self.calls.push(Call::Apply(ip.to_text(), reason.map(|r| r.to_string())));
        if self.fail_apply {
            return Err(BackendError::Rejected("apply refused".to_string()));
        }
        self.applied += 1;
        Ok(RuleHandle { token: format!("rule-{}-{}", self.applied, ip.to_text()) })
    }

    fn apply_allow_profile(&mut self) -> Result<(), BackendError> {
        self.calls.push(Call::AllowProfile);
        if self.fail_profile {
            Err(BackendError::Unreachable("down".to_string()))
        } else {
            Ok(())
        }
    }

    fn apply_deny_profile(&mut self) -> Result<(), BackendError> {
        self.calls.push(Call::DenyProfile);
        if self.fail_profile {
            Err(BackendError::Unreachable("down".to_string()))
        } else {
            Ok(())
        }
    }

    fn retract(&mut self, handle: &RuleHandle) -> Result<(), BackendError> {
        self.calls.push(Call::Retract(handle.token.clone()));
        if self.fail_retract {
            Err(BackendError::Unreachable("retract failed".to_string()))
        } else {
            Ok(())
        }
    }

    fn count_rules(&mut self) -> u64 {
        self.calls.push(Call::CountRules);
        self.rules
    }

    fn count_blocking_rules(&mut self) -> u64 {
        self.calls.push(Call::CountBlocking);
        self.blocking
    }
}

fn fresh() -> (FirewallManager, Gateway<Recorder>) {
    (FirewallManager::new().unwrap(), Gateway::new(Recorder::default()))
}

const T0: u64 = 1_700_000_000_000;

#[test]
fn new_store_is_empty() {
    let store = FirewallManager::new().unwrap();
    assert_eq!(store.len(), 0);
    assert!(store.snapshot().is_empty());
    assert_eq!(store.next_deadline(), None);
    assert_eq!(store.timer_count(), 0);
    assert!(!store.is_exhausted());
}

#[test]
fn block_creates_an_active_record() {
    let (mut store, mut gw) = fresh();
    let id = store.block_ip(&mut gw, "10.0.0.5", None, Some("scanner"), T0).unwrap();
    assert_eq!(id, 1);
    let snapshot = store.snapshot();
    assert_eq!(
        snapshot,
        vec![RuleRecord {
            id: 1,
            ip: IpNet::V4(Ip4Net { addr: 0x0a00_0005, prefix: 32 }),
            action: RuleAction::Block,
            created_at: T0,
            expires_at: None,
            reason: Some("scanner".to_string()),
            origin: RuleOrigin::Manual,
            state: RuleState::Active,
        }]
    );
    assert_eq!(
        gw.backend().calls,
        vec![Call::Apply("10.0.0.5".to_string(), Some("scanner".to_string()))]
    );
    assert_eq!(store.next_deadline(), None);
}

#[test]
fn block_with_duration_schedules_the_deadline() {
    let (mut store, mut gw) = fresh();
    store.block_ip(&mut gw, "10.0.0.5", Some(2), None, T0).unwrap();
    assert_eq!(store.snapshot()[0].expires_at, Some(T0 + 2000));
    assert_eq!(store.next_deadline(), Some(T0 + 2000));
    assert_eq!(store.timer_count(), 1);
}

#[test]
fn block_with_zero_duration_is_due_at_once() {
    let (mut store, mut gw) = fresh();
    store.block_ip(&mut gw, "10.0.0.5", Some(0), None, T0).unwrap();
    assert_eq!(store.snapshot()[0].expires_at, Some(T0));
    let report = store.expire_due(&mut gw, T0);
    assert_eq!(report.removed.len(), 1);
    assert_eq!(store.len(), 0);
}

#[test]
fn expiry_removes_the_record_and_retracts_once() {
    let (mut store, mut gw) = fresh();
    let id = store.block_ip(&mut gw, "10.0.0.5", Some(2), None, T0).unwrap();
    let early = store.expire_due(&mut gw, T0 + 1999);
    assert!(early.removed.is_empty());
    assert_eq!(gw.backend().retractions(), 0);
    assert_eq!(store.len(), 1);

    let report = store.expire_due(&mut gw, T0 + 2500);
    assert_eq!(report.removed.len(), 1);
    assert_eq!(report.removed[0].id, id);
    assert_eq!(report.removed[0].state, RuleState::Removed);
    assert!(report.abandoned.is_empty());
    assert_eq!(report.retried, 0);
    assert_eq!(gw.backend().retractions(), 1);
    assert!(store.snapshot().is_empty());
    assert_eq!(store.next_deadline(), None);

    let later = store.expire_due(&mut gw, T0 + 10_000);
    assert!(later.removed.is_empty());
    assert_eq!(gw.backend().retractions(), 1);
}

#[test]
fn expiry_fires_exactly_at_the_deadline() {
    let (mut store, mut gw) = fresh();
    store.block_ip(&mut gw, "10.0.0.5", Some(2), None, T0).unwrap();
    let report = store.expire_due(&mut gw, T0 + 2000);
    assert_eq!(report.removed.len(), 1);
}

#[test]
fn allow_cancels_the_timer_and_retracts_once() {
    let (mut store, mut gw) = fresh();
    store.block_ip(&mut gw, "10.0.0.5", Some(2), None, T0).unwrap();
    assert_eq!(store.allow_ip(&mut gw, "10.0.0.5"), Ok(true));
    assert_eq!(gw.backend().retractions(), 1);
    assert_eq!(store.next_deadline(), None);
    assert_eq!(store.timer_count(), 0);
    assert!(store.snapshot().is_empty());

    let report = store.expire_due(&mut gw, T0 + 2500);
    assert!(report.removed.is_empty());
    let report = store.expire_due(&mut gw, T0 + 1_000_000);
    assert!(report.removed.is_empty());
    assert_eq!(gw.backend().retractions(), 1);
}

#[test]
fn allow_without_a_record_is_a_no_op() {
    let (mut store, mut gw) = fresh();
    assert_eq!(store.allow_ip(&mut gw, "1.2.3.4"), Ok(false));
    assert!(gw.backend().calls.is_empty());
    assert!(store.snapshot().is_empty());

    store.block_ip(&mut gw, "10.0.0.5", None, None, T0).unwrap();
    let before = store.snapshot();
    let calls = gw.backend().calls.len();
    assert_eq!(store.allow_ip(&mut gw, "1.2.3.4"), Ok(false));
    assert_eq!(store.allow_ip(&mut gw, "1.2.3.4"), Ok(false));
    assert_eq!(gw.backend().calls.len(), calls);
    assert_eq!(store.snapshot(), before);
}

#[test]
fn allow_twice_retracts_once() {
    let (mut store, mut gw) = fresh();
    store.block_ip(&mut gw, "1.2.3.4", None, None, T0).unwrap();
    assert_eq!(store.allow_ip(&mut gw, "1.2.3.4"), Ok(true));
    assert_eq!(store.allow_ip(&mut gw, "1.2.3.4"), Ok(false));
    assert_eq!(gw.backend().retractions(), 1);
}

#[test]
fn block_replaces_the_record_of_the_address() {
    let (mut store, mut gw) = fresh();
    let first = store.block_ip(&mut gw, "1.2.3.4", Some(60), Some("a"), T0).unwrap();
    let second = store.block_ip(&mut gw, "1.2.3.4", None, Some("b"), T0 + 5).unwrap();
    assert_ne!(first, second);
    let snapshot = store.snapshot();
    assert_eq!(snapshot.len(), 1);
    assert_eq!(snapshot[0].id, second);
    assert_eq!(snapshot[0].reason.as_deref(), Some("b"));
    assert_eq!(snapshot[0].state, RuleState::Active);
    assert_eq!(snapshot[0].created_at, T0 + 5);
    assert_eq!(snapshot[0].expires_at, None);
    assert_eq!(store.next_deadline(), None);
    assert_eq!(
        gw.backend().calls,
        vec![
            Call::Apply("1.2.3.4".to_string(), Some("a".to_string())),
            Call::Retract("rule-1-1.2.3.4".to_string()),
            Call::Apply("1.2.3.4".to_string(), Some("b".to_string())),
        ]
    );
    let report = store.expire_due(&mut gw, T0 + 100_000);
    assert!(report.removed.is_empty());
    assert_eq!(store.len(), 1);
}

#[test]
fn one_record_for_each_address_whatever_its_spelling() {
    let (mut store, mut gw) = fresh();
    store.block_ip(&mut gw, "1.2.3.4", None, None, T0).unwrap();
    store.block_ip(&mut gw, "1.2.3.4/32", None, None, T0).unwrap();
    store.block_ip(&mut gw, "10.0.0.77/24", None, None, T0).unwrap();
    store.block_ip(&mut gw, "10.0.0.0/24", None, None, T0).unwrap();
    store.block_ip(&mut gw, "10.0.0.0/25", None, None, T0).unwrap();
    let snapshot = store.snapshot();
    assert_eq!(snapshot.len(), 3);
    for (i, a) in snapshot.iter().enumerate() {
        for b in snapshot.iter().skip(i + 1) {
            assert_ne!(a.ip, b.ip);
            assert_ne!(a.id, b.id);
        }
        assert_ne!(a.state, RuleState::Removed);
    }
}

#[test]
fn snapshot_is_in_order_of_creation() {
    let (mut store, mut gw) = fresh();
    store.block_ip(&mut gw, "3.3.3.3", None, None, T0).unwrap();
    store.block_ip(&mut gw, "1.1.1.1", None, None, T0 + 1).unwrap();
    store.block_ip(&mut gw, "2.2.2.2", None, None, T0 + 2).unwrap();
    let ips: Vec<String> = store.snapshot().iter().map(|r| r.ip.to_text()).collect();
    assert_eq!(ips, vec!["3.3.3.3", "1.1.1.1", "2.2.2.2"]);
    let ids: Vec<u64> = store.snapshot().iter().map(|r| r.id).collect();
    assert_eq!(ids, vec![1, 2, 3]);
}

#[test]
fn a_bad_address_is_refused_before_anything_happens() {
    let (mut store, mut gw) = fresh();
    for bad in ["", "1.2.3", "256.0.0.1", "1.2.3.4/33", "host", "1.2.3.4 "] {
        assert_eq!(
            store.block_ip(&mut gw, bad, None, None, T0),
            Err(FirewallError::Validation(ValidationError::InvalidAddress))
        );
        assert_eq!(
            store.allow_ip(&mut gw, bad),
            Err(FirewallError::Validation(ValidationError::InvalidAddress))
        );
    }
    assert!(gw.backend().calls.is_empty());
    assert_eq!(store.len(), 0);
}

#[test]
fn a_duration_past_the_end_of_time_is_refused() {
    let (mut store, mut gw) = fresh();
    assert_eq!(
        store.block_ip(&mut gw, "1.2.3.4", Some(u64::MAX), None, T0),
        Err(FirewallError::Validation(ValidationError::InvalidDuration))
    );
    assert_eq!(
        store.block_ip(&mut gw, "1.2.3.4", Some(1), None, u64::MAX - 999),
        Err(FirewallError::Validation(ValidationError::InvalidDuration))
    );
    assert!(gw.backend().calls.is_empty());
    assert_eq!(store.len(), 0);
    let id = store.block_ip(&mut gw, "1.2.3.4", Some(1), None, u64::MAX - 1000).unwrap();
    assert_eq!(store.snapshot()[0].id, id);
    assert_eq!(store.snapshot()[0].expires_at, Some(u64::MAX));
}

#[test]
fn deadline_after_adds_milliseconds() {
    assert_eq!(deadline_after(5, None), Some(None));
    assert_eq!(deadline_after(5, Some(0)), Some(Some(5)));
    assert_eq!(deadline_after(5, Some(2)), Some(Some(2005)));
    assert_eq!(deadline_after(0, Some(u64::MAX / 1000)), Some(Some(u64::MAX / 1000 * 1000)));
    assert_eq!(deadline_after(0, Some(u64::MAX / 1000 + 1)), None);
    assert_eq!(deadline_after(u64::MAX, Some(1)), None);
}

#[test]
fn a_failed_application_leaves_no_record() {
    let (mut store, mut gw) = fresh();
    store.block_ip(&mut gw, "9.9.9.9", None, None, T0).unwrap();
    let mut backend = gw.into_backend();
    backend.fail_apply = true;
    let mut gw = Gateway::new(backend);
    let before = store.snapshot();
    assert_eq!(
        store.block_ip(&mut gw, "1.2.3.4", Some(5), Some("x"), T0),
        Err(FirewallError::Backend(BackendError::Rejected("apply refused".to_string())))
    );
    assert_eq!(store.snapshot(), before);
    assert_eq!(store.next_deadline(), None);
    assert_eq!(gw.backend().applications(), 2);
}

#[test]
fn a_failed_retraction_keeps_the_record_and_its_timer() {
    let (mut store, mut gw) = fresh();
    store.block_ip(&mut gw, "1.2.3.4", Some(60), Some("a"), T0).unwrap();
    let mut backend = gw.into_backend();
    backend.fail_retract = true;
    let mut gw = Gateway::new(backend);
    let before = store.snapshot();
    assert_eq!(
        store.allow_ip(&mut gw, "1.2.3.4"),
        Err(FirewallError::Backend(BackendError::Unreachable("retract failed".to_string())))
    );
    assert_eq!(store.snapshot(), before);
    assert_eq!(store.next_deadline(), Some(T0 + 60_000));

    assert_eq!(
        store.block_ip(&mut gw, "1.2.3.4", None, Some("b"), T0 + 1),
        Err(FirewallError::Backend(BackendError::Unreachable("retract failed".to_string())))
    );
    assert_eq!(store.snapshot(), before);
    assert_eq!(store.next_deadline(), Some(T0 + 60_000));
    assert_eq!(gw.backend().applications(), 1);
}

#[test]
fn a_replacement_that_cannot_be_applied_leaves_the_address_free() {
    let (mut store, mut gw) = fresh();
    store.block_ip(&mut gw, "1.2.3.4", Some(60), Some("a"), T0).unwrap();
    let mut backend = gw.into_backend();
    backend.fail_apply = true;
    let mut gw = Gateway::new(backend);
    assert!(matches!(
        store.block_ip(&mut gw, "1.2.3.4", None, Some("b"), T0 + 1),
        Err(FirewallError::Backend(_))
    ));
    assert!(store.snapshot().is_empty());
    assert_eq!(store.next_deadline(), None);
    assert_eq!(gw.backend().retractions(), 1);
}

#[test]
fn expirations_come_nearest_deadline_first() {
    let (mut store, mut gw) = fresh();
    store.block_ip(&mut gw, "1.1.1.1", Some(30), None, T0).unwrap();
    store.block_ip(&mut gw, "2.2.2.2", Some(10), None, T0).unwrap();
    store.block_ip(&mut gw, "3.3.3.3", Some(20), None, T0).unwrap();
    store.block_ip(&mut gw, "4.4.4.4", None, None, T0).unwrap();
    assert_eq!(store.next_deadline(), Some(T0 + 10_000));
    let report = store.expire_due(&mut gw, T0 + 25_000);
    let ips: Vec<String> = report.removed.iter().map(|r| r.ip.to_text()).collect();
    assert_eq!(ips, vec!["2.2.2.2", "3.3.3.3"]);
    assert_eq!(store.next_deadline(), Some(T0 + 30_000));
    assert_eq!(gw.backend().retractions(), 2);
    let left: Vec<String> = store.snapshot().iter().map(|r| r.ip.to_text()).collect();
    assert_eq!(left, vec!["1.1.1.1", "4.4.4.4"]);
}

#[test]
fn a_failed_expiry_is_retried_with_doubling_waits_and_then_given_up() {
    let (mut store, mut gw) = fresh();
    store.block_ip(&mut gw, "1.2.3.4", Some(1), None, T0).unwrap();
    let mut backend = gw.into_backend();
    backend.fail_retract = true;
    let mut gw = Gateway::new(backend);

    let mut now = T0 + 1000;
    for wait in [1000u64, 2000, 4000, 8000] {
        let report = store.expire_due(&mut gw, now);
        assert_eq!(report.retried, 1);
        assert!(report.removed.is_empty());
        assert!(report.abandoned.is_empty());
        assert_eq!(store.len(), 1);
        assert_eq!(store.snapshot()[0].state, RuleState::Active);
        assert_eq!(store.next_deadline(), Some(now + wait));
        let idle = store.expire_due(&mut gw, now + wait - 1);
        assert_eq!(idle.retried, 0);
        now += wait;
    }
    assert_eq!(gw.backend().retractions(), 4);
    let report = store.expire_due(&mut gw, now);
    assert_eq!(report.retried, 0);
    assert_eq!(report.abandoned.len(), 1);
    assert_eq!(report.abandoned[0].state, RuleState::Removed);
    assert_eq!(gw.backend().retractions(), 5);
    assert_eq!(store.len(), 0);
    assert_eq!(store.next_deadline(), None);
}

#[test]
fn a_retry_that_succeeds_removes_the_record() {
    let (mut store, mut gw) = fresh();
    store.block_ip(&mut gw, "1.2.3.4", Some(1), None, T0).unwrap();
    let mut backend = gw.into_backend();
    backend.fail_retract = true;
    let mut gw = Gateway::new(backend);
    assert_eq!(store.expire_due(&mut gw, T0 + 1000).retried, 1);
    let mut backend = gw.into_backend();
    backend.fail_retract = false;
    let mut gw = Gateway::new(backend);
    let report = store.expire_due(&mut gw, T0 + 2000);
    assert_eq!(report.removed.len(), 1);
    assert_eq!(store.len(), 0);
    assert_eq!(gw.backend().retractions(), 2);
}

#[test]
fn the_steps_of_a_block() {
    let mut store = FirewallManager::new().unwrap();
    let ip = IpNet::parse("1.2.3.4").unwrap();
    let stage = store.begin_block(ip, Some("why"), T0, Some(T0 + 10), RuleOrigin::Imported);
    assert_eq!(stage, BlockStage::Entered { id: 1 });
    assert_eq!(store.snapshot()[0].state, RuleState::Pending);
    assert_eq!(store.snapshot()[0].origin, RuleOrigin::Imported);
    assert_eq!(store.next_deadline(), None);
    assert_eq!(
        store.begin_block(ip, None, T0, None, RuleOrigin::Manual),
        BlockStage::Occupied
    );
    assert_eq!(store.state_of(&ip), Some(RuleState::Pending));
    assert_eq!(store.confirm_retract(1), None);
    assert!(!store.abort_retract(1));
    assert_eq!(store.retry_expiry(1, T0), RetryOutcome::Stale);

    let handle = RuleHandle { token: "h".to_string() };
    assert_eq!(store.confirm_block(1, handle.clone()), Ok(()));
    assert_eq!(store.snapshot()[0].state, RuleState::Active);
    assert_eq!(store.next_deadline(), Some(T0 + 10));
    assert_eq!(store.confirm_block(1, handle.clone()), Err(handle.clone()));
    assert_eq!(store.confirm_block(7, handle.clone()), Err(handle.clone()));
    assert!(!store.abort_block(1));
    assert_eq!(store.lookup(&ip).unwrap().id, 1);
}

#[test]
fn an_aborted_block_is_discarded() {
    let mut store = FirewallManager::new().unwrap();
    let ip = IpNet::parse("1.2.3.4").unwrap();
    assert_eq!(
        store.begin_block(ip, None, T0, Some(T0 + 10), RuleOrigin::Manual),
        BlockStage::Entered { id: 1 }
    );
    assert!(store.abort_block(1));
    assert!(store.snapshot().is_empty());
    assert_eq!(store.lookup(&ip), None);
    assert_eq!(
        store.begin_block(ip, None, T0, None, RuleOrigin::Manual),
        BlockStage::Entered { id: 2 }
    );
}

#[test]
fn the_steps_of_a_retraction() {
    let mut store = FirewallManager::new().unwrap();
    let ip = IpNet::parse("1.2.3.4").unwrap();
    assert_eq!(store.begin_retract(&ip), RetractStage::Absent);
    store.begin_block(ip, None, T0, Some(T0 + 10), RuleOrigin::Manual);
    store.confirm_block(1, RuleHandle { token: "h".to_string() }).unwrap();
    assert_eq!(
        store.begin_retract(&ip),
        RetractStage::Retract { id: 1, handle: RuleHandle { token: "h".to_string() } }
    );
    assert_eq!(store.snapshot()[0].state, RuleState::Expiring);
    assert_eq!(store.next_deadline(), None);
    assert_eq!(
        store.begin_retract(&ip),
        RetractStage::Join { id: 1, handle: RuleHandle { token: "h".to_string() } }
    );
    assert_eq!(store.snapshot()[0].state, RuleState::Expiring);
    assert_eq!(store.begin_expiry(T0 + 100), None);

    assert!(store.abort_retract(1));
    assert_eq!(store.snapshot()[0].state, RuleState::Active);
    assert_eq!(store.next_deadline(), Some(T0 + 10));

    assert!(matches!(store.begin_retract(&ip), RetractStage::Retract { id: 1, .. }));
    let removed = store.confirm_retract(1).unwrap();
    assert_eq!(removed.state, RuleState::Removed);
    assert_eq!(removed.id, 1);
    assert!(store.snapshot().is_empty());
    assert_eq!(store.confirm_retract(1), None);
}

#[test]
fn the_steps_of_an_expiry() {
    let mut store = FirewallManager::new().unwrap();
    let ip = IpNet::parse("1.2.3.4").unwrap();
    store.begin_block(ip, None, T0, Some(T0 + 10), RuleOrigin::Manual);
    store.confirm_block(1, RuleHandle { token: "h".to_string() }).unwrap();
    assert_eq!(store.begin_expiry(T0 + 9), None);
    assert_eq!(
        store.begin_expiry(T0 + 10),
        Some((1, RuleHandle { token: "h".to_string() }))
    );
    assert_eq!(store.snapshot()[0].state, RuleState::Expiring);
    assert_eq!(store.begin_expiry(T0 + 10), None);
    assert_eq!(store.retry_expiry(1, T0 + 10), RetryOutcome::Retry { at: Some(T0 + 1010) });
    assert_eq!(store.snapshot()[0].state, RuleState::Active);
    assert_eq!(store.next_deadline(), Some(T0 + 1010));
}

#[test]
fn a_retry_never_comes_before_the_deadline() {
    let mut store = FirewallManager::new().unwrap();
    let ip = IpNet::parse("1.2.3.4").unwrap();
    store.begin_block(ip, None, T0, Some(T0 + 50_000), RuleOrigin::Manual);
    store.confirm_block(1, RuleHandle { token: "h".to_string() }).unwrap();
    assert!(matches!(store.begin_retract(&ip), RetractStage::Retract { .. }));
    assert_eq!(store.retry_expiry(1, T0), RetryOutcome::Retry { at: Some(T0 + 50_000) });
}

#[test]
fn a_retry_of_a_rule_without_deadline_restores_it() {
    let mut store = FirewallManager::new().unwrap();
    let ip = IpNet::parse("1.2.3.4").unwrap();
    store.begin_block(ip, None, T0, None, RuleOrigin::Manual);
    store.confirm_block(1, RuleHandle { token: "h".to_string() }).unwrap();
    assert!(matches!(store.begin_retract(&ip), RetractStage::Retract { .. }));
    assert_eq!(store.retry_expiry(1, T0), RetryOutcome::Retry { at: None });
    assert_eq!(store.snapshot()[0].state, RuleState::Active);
    assert_eq!(store.next_deadline(), None);
}

#[test]
fn a_retry_past_the_end_of_time_gives_the_rule_up() {
    let mut store = FirewallManager::new().unwrap();
    let ip = IpNet::parse("1.2.3.4").unwrap();
    store.begin_block(ip, None, T0, Some(T0 + 1), RuleOrigin::Manual);
    store.confirm_block(1, RuleHandle { token: "h".to_string() }).unwrap();
    assert!(store.begin_expiry(u64::MAX).is_some());
    match store.retry_expiry(1, u64::MAX) {
        RetryOutcome::Abandoned(record) => {
            assert_eq!(record.id, 1);
            assert_eq!(record.state, RuleState::Removed);
        },
        other => panic!("unexpected outcome {:?}", other),
    }
    assert_eq!(store.len(), 0);
}

#[test]
fn enable_and_disable_switch_the_profile() {
    let (mut store, mut gw) = fresh();
    assert_eq!(store.enable(&mut gw), Ok(()));
    assert_eq!(store.disable(&mut gw), Ok(()));
    assert_eq!(gw.backend().calls, vec![Call::AllowProfile, Call::DenyProfile]);
    let mut backend = gw.into_backend();
    backend.fail_profile = true;
    let mut gw = Gateway::new(backend);
    assert_eq!(
        store.enable(&mut gw),
        Err(FirewallError::Backend(BackendError::Unreachable("down".to_string())))
    );
    assert_eq!(
        store.disable(&mut gw),
        Err(FirewallError::Backend(BackendError::Unreachable("down".to_string())))
    );
}

#[test]
fn stats_count_the_active_rules_and_scale_the_backend_counts() {
    let (mut store, mut gw) = fresh();
    store.block_ip(&mut gw, "1.1.1.1", None, None, T0).unwrap();
    store.block_ip(&mut gw, "2.2.2.2", None, None, T0).unwrap();
    let ip = IpNet::parse("3.3.3.3").unwrap();
    store.begin_block(ip, None, T0, None, RuleOrigin::Manual);
    let mut backend = gw.into_backend();
    backend.rules = 7;
    backend.blocking = 3;
    let mut gw = Gateway::new(backend);
    let stats = store.get_stats(&mut gw).unwrap();
    assert_eq!(stats.active_rules, 2);
    assert_eq!(stats.blocked_connections, 300);
    assert_eq!(stats.total_packets, 7000);
    let calls = &gw.backend().calls;
    assert_eq!(calls[calls.len() - 2..], [Call::CountRules, Call::CountBlocking]);
}

#[test]
fn allowing_a_pending_record_discards_it_without_a_call() {
    let (mut store, mut gw) = fresh();
    let ip = IpNet::parse("1.2.3.4").unwrap();
    store.begin_block(ip, None, T0, Some(T0 + 5), RuleOrigin::Manual);
    assert_eq!(store.allow_ip(&mut gw, "1.2.3.4"), Ok(true));
    assert!(gw.backend().calls.is_empty());
    assert_eq!(store.len(), 0);
    assert_eq!(store.state_of(&ip), None);
    let late = RuleHandle { token: "late".to_string() };
    assert_eq!(store.confirm_block(1, late.clone()), Err(late));
    assert!(!store.abort_block(1));
    assert_eq!(store.len(), 0);
}

#[test]
fn a_pending_record_is_discarded_by_the_step() {
    let mut store = FirewallManager::new().unwrap();
    let ip = IpNet::parse("1.2.3.4").unwrap();
    store.begin_block(ip, Some("x"), T0, None, RuleOrigin::Manual);
    match store.begin_retract(&ip) {
        RetractStage::Discarded(record) => {
            assert_eq!(record.id, 1);
            assert_eq!(record.state, RuleState::Removed);
            assert_eq!(record.reason.as_deref(), Some("x"));
        },
        other => panic!("unexpected stage {:?}", other),
    }
    assert_eq!(store.len(), 0);
    assert_eq!(store.begin_retract(&ip), RetractStage::Absent);
}

#[test]
fn allowing_a_record_whose_retraction_is_under_way_retracts_too() {
    let (mut store, mut gw) = fresh();
    let ip = IpNet::parse("1.2.3.4").unwrap();
    store.block_ip(&mut gw, "1.2.3.4", Some(1), None, T0).unwrap();
    assert!(store.begin_expiry(T0 + 1000).is_some());
    assert_eq!(store.state_of(&ip), Some(RuleState::Expiring));
    assert_eq!(store.allow_ip(&mut gw, "1.2.3.4"), Ok(true));
    assert_eq!(gw.backend().retractions(), 1);
    assert_eq!(store.len(), 0);
    assert_eq!(store.confirm_retract(1), None);
    assert_eq!(store.retry_expiry(1, T0 + 1000), RetryOutcome::Stale);
    assert_eq!(store.len(), 0);
    assert!(store.expire_due(&mut gw, T0 + 100_000).removed.is_empty());
    assert_eq!(gw.backend().retractions(), 1);
}

#[test]
fn a_failed_retraction_leaves_a_retraction_under_way_as_it_was() {
    let (mut store, mut gw) = fresh();
    let ip = IpNet::parse("1.2.3.4").unwrap();
    store.block_ip(&mut gw, "1.2.3.4", Some(1), None, T0).unwrap();
    assert!(store.begin_expiry(T0 + 1000).is_some());
    let mut backend = gw.into_backend();
    backend.fail_retract = true;
    let mut gw = Gateway::new(backend);
    assert!(matches!(store.allow_ip(&mut gw, "1.2.3.4"), Err(FirewallError::Backend(_))));
    assert_eq!(store.state_of(&ip), Some(RuleState::Expiring));
    assert_eq!(store.next_deadline(), None);
    assert!(matches!(
        store.block_ip(&mut gw, "1.2.3.4", None, None, T0),
        Err(FirewallError::Backend(_))
    ));
    assert_eq!(store.state_of(&ip), Some(RuleState::Expiring));
    assert_eq!(store.retry_expiry(1, T0 + 1000), RetryOutcome::Retry { at: Some(T0 + 2000) });
    assert_eq!(store.state_of(&ip), Some(RuleState::Active));
}

#[test]
fn blocking_replaces_a_record_in_any_state() {
    let (mut store, mut gw) = fresh();
    let ip = IpNet::parse("1.2.3.4").unwrap();
    store.begin_block(ip, Some("old"), T0, None, RuleOrigin::Manual);
    assert_eq!(store.block_ip(&mut gw, "1.2.3.4", None, Some("new"), T0 + 1), Ok(2));
    assert_eq!(gw.backend().calls, vec![Call::Apply("1.2.3.4".to_string(), Some("new".to_string()))]);
    assert_eq!(store.len(), 1);
    assert_eq!(store.snapshot()[0].reason.as_deref(), Some("new"));
    assert_eq!(store.snapshot()[0].state, RuleState::Active);

    assert!(matches!(store.begin_retract(&ip), RetractStage::Retract { id: 2, .. }));
    assert_eq!(store.block_ip(&mut gw, "1.2.3.4", Some(9), Some("newer"), T0 + 2), Ok(3));
    assert_eq!(gw.backend().retractions(), 1);
    assert_eq!(gw.backend().applications(), 2);
    assert_eq!(store.len(), 1);
    assert_eq!(store.snapshot()[0].id, 3);
    assert_eq!(store.snapshot()[0].state, RuleState::Active);
    assert_eq!(store.next_deadline(), Some(T0 + 9002));
    assert_eq!(store.confirm_retract(2), None);
}

#[test]
fn removed_records_come_back_from_the_steps_only() {
    let (mut store, mut gw) = fresh();
    store.block_ip(&mut gw, "1.2.3.4", Some(1), Some("x"), T0).unwrap();
    store.block_ip(&mut gw, "5.6.7.8", Some(1), None, T0).unwrap();
    let report = store.expire_due(&mut gw, T0 + 1000);
    assert_eq!(report.removed.len(), 2);
    for record in &report.removed {
        assert_eq!(record.state, RuleState::Removed);
        assert_eq!(record.action, RuleAction::Block);
        assert_eq!(store.lookup(&record.ip), None);
    }
    assert_eq!(report.removed[0].reason.as_deref(), Some("x"));
    assert!(store.snapshot().iter().all(|r| r.state != RuleState::Removed));
}

#[test]
fn a_gateway_hands_out_the_backend_it_was_made_with() {
    let mut backend = Recorder::default();
    backend.rules = 41;
    backend.blocking = 7;
    let mut gw = Gateway::new(backend);
    assert_eq!(gw.backend().rules, 41);
    assert_eq!(gw.backend().blocking, 7);
    assert!(gw.backend().calls.is_empty());
    assert_eq!(gw.count_rules(), 41);
    assert_eq!(gw.backend().calls, vec![Call::CountRules]);
    let back = gw.into_backend();
    assert_eq!(back.rules, 41);
    assert_eq!(back.calls, vec![Call::CountRules]);
}

#[test]
fn a_failed_allow_leaves_the_timers_as_they_were() {
    let (mut store, mut gw) = fresh();
    store.block_ip(&mut gw, "1.1.1.1", Some(1), None, T0).unwrap();
    store.block_ip(&mut gw, "2.2.2.2", Some(3), None, T0).unwrap();
    store.block_ip(&mut gw, "3.3.3.3", Some(3), None, T0).unwrap();
    let mut backend = gw.into_backend();
    backend.fail_retract = true;
    let mut gw = Gateway::new(backend);

    assert_eq!(store.expire_due(&mut gw, T0 + 1000).retried, 1);
    assert_eq!(store.next_deadline(), Some(T0 + 2000));
    let before = store.snapshot();
    assert!(matches!(store.allow_ip(&mut gw, "1.1.1.1"), Err(FirewallError::Backend(_))));
    assert_eq!(store.snapshot(), before);
    assert_eq!(store.next_deadline(), Some(T0 + 2000));
    assert_eq!(store.timer_count(), 3);

    assert!(matches!(store.allow_ip(&mut gw, "2.2.2.2"), Err(FirewallError::Backend(_))));
    assert_eq!(store.snapshot(), before);
    let mut backend = gw.into_backend();
    backend.fail_retract = false;
    let mut gw = Gateway::new(backend);
    let report = store.expire_due(&mut gw, T0 + 3000);
    let ips: Vec<String> = report.removed.iter().map(|r| r.ip.to_text()).collect();
    assert_eq!(ips, vec!["1.1.1.1", "2.2.2.2", "3.3.3.3"]);
}

#[test]
fn among_equal_deadlines_the_older_rule_expires_first() {
    let (mut store, mut gw) = fresh();
    store.block_ip(&mut gw, "3.3.3.3", Some(5), None, T0).unwrap();
    store.block_ip(&mut gw, "1.1.1.1", Some(5), None, T0).unwrap();
    store.block_ip(&mut gw, "2.2.2.2", Some(4), None, T0 + 1000).unwrap();
    let report = store.expire_due(&mut gw, T0 + 5000);
    let ids: Vec<u64> = report.removed.iter().map(|r| r.id).collect();
    assert_eq!(ids, vec![1, 2, 3]);
}

#[test]
fn two_spellings_of_an_address_of_the_later_family_are_one_key() {
    let (mut store, mut gw) = fresh();
    let first = store.block_ip(&mut gw, "2001:db8::1", Some(60), Some("a"), T0).unwrap();
    let second = store.block_ip(&mut gw, "2001:0DB8:0:0:0:0:0:1", None, Some("b"), T0 + 1).unwrap();
    assert_ne!(first, second);
    let snapshot = store.snapshot();
    assert_eq!(snapshot.len(), 1);
    assert_eq!(snapshot[0].id, second);
    assert_eq!(snapshot[0].reason, Some("b".to_string()));
    assert_eq!(snapshot[0].ip.to_text(), "2001:db8:0:0:0:0:0:1");
    assert_eq!(gw.backend().applications(), 2);
    assert_eq!(gw.backend().retractions(), 1);
    assert_eq!(store.allow_ip(&mut gw, "2001:db8:0::1"), Ok(true));
    assert_eq!(store.len(), 0);
    assert_eq!(gw.backend().retractions(), 2);
    assert_eq!(store.allow_ip(&mut gw, "::1"), Ok(false));
    assert_eq!(
        store.block_ip(&mut gw, "2001:db8:::1", None, None, T0),
        Err(FirewallError::Validation(ValidationError::InvalidAddress))
    );
}
