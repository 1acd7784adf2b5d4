use d_shark::backend::{BackendAdapter, BackendError, RuleHandle};
use d_shark::codec::{
    encode_rules, export_snapshot, EntryFault, FormatError, ImportWarning, RuleEntry, TAG_ACTION,
    TAG_CREATED, TAG_EXPIRES, TAG_IP, TAG_ORIGIN, TAG_REASON,
};
use d_shark::gateway::Gateway;
use d_shark::import::{decode_one, decode_rules};
use d_shark::manager::FirewallManager;
use d_shark::record::{RuleAction, RuleOrigin, RuleRecord, RuleState};
use d_shark::{Ip4Net, IpNet};

/// A backend that applies and retracts whatever it is asked to, and counts.
#[derive(Default)]
struct Counting {
    applied: Vec<String>,
    retracted: Vec<String>,
    refuse: Vec<String>,
}

impl BackendAdapter for Counting {
    fn apply_block(&mut self, ip: &IpNet, _reason: Option<&str>) -> Result<RuleHandle, BackendError> {
        if self.refuse.contains(&ip.to_text()) {
            return Err(BackendError::Rejected(ip.to_text()));
        }
        self.applied.push(ip.to_text());
        Ok(RuleHandle { token: ip.to_text() })
    }

    fn apply_allow_profile(&mut self) -> Result<(), BackendError> {
        Ok(())
    }

    fn apply_deny_profile(&mut self) -> Result<(), BackendError> {
        Ok(())
    }

    fn retract(&mut self, handle: &RuleHandle) -> Result<(), BackendError> {
        if self.refuse.contains(&handle.token) {
            return Err(BackendError::Rejected(handle.token.clone()));
        }
        self.retracted.push(handle.token.clone());
        Ok(())
    }

    fn count_rules(&mut self) -> u64 {
        0
    }

    fn count_blocking_rules(&mut self) -> u64 {
        0
    }
}

fn entry(ip: &str, reason: Option<&str>, expires_at: Option<u64>) -> RuleEntry {
    RuleEntry {
        ip: IpNet::parse(ip).unwrap(),
        action: RuleAction::Block,
        reason: reason.map(|r| r.to_string()),
        origin: RuleOrigin::Manual,
        created_at: 1000,
        expires_at,
    }
}

fn field(tag: u8, value: &[u8]) -> Vec<u8> {
    let mut out = vec![tag];
    out.extend_from_slice(&(value.len() as u64).to_le_bytes());
    out.extend_from_slice(value);
    out
}

fn frame(body: &[u8]) -> Vec<u8> {
    let mut out = (body.len() as u64).to_le_bytes().to_vec();
    out.extend_from_slice(body);
    out
}

fn file(bodies: &[Vec<u8>]) -> Vec<u8> {
    let mut out = b"DSRK\x01".to_vec();
    for body in bodies {
        out.extend_from_slice(&frame(body));
    }
    out
}

fn body(ip: &[u8], action: u8, origin: u8, created: u64) -> Vec<u8> {
    let mut out = field(TAG_IP, ip);
    out.extend(field(TAG_ACTION, &[action]));
    out.extend(field(TAG_ORIGIN, &[origin]));
    out.extend(field(TAG_CREATED, &created.to_le_bytes()));
    out
}

#[test]
fn an_empty_rule_set_is_a_header() {
    assert_eq!(encode_rules(&vec![]), b"DSRK\x01".to_vec());
    let read = decode_rules(b"DSRK\x01").unwrap();
    assert!(read.entries.is_empty());
    assert!(read.warnings.is_empty());
}

#[test]
fn the_bytes_of_an_entry() {
    let bytes = encode_rules(&vec![RuleEntry {
        ip: IpNet::V4(Ip4Net { addr: 0x0102_0304, prefix: 32 }),
        action: RuleAction::Block,
        reason: Some("hi".to_string()),
        origin: RuleOrigin::Imported,
        created_at: 0x0807_0605_0403_0201,
        expires_at: Some(258),
    }]);
    let mut expected = b"DSRK\x01".to_vec();
    expected.extend_from_slice(&[79, 0, 0, 0, 0, 0, 0, 0]);
    expected.extend_from_slice(&[1, 5, 0, 0, 0, 0, 0, 0, 0, 4, 3, 2, 1, 32]);
    expected.extend_from_slice(&[2, 1, 0, 0, 0, 0, 0, 0, 0, 0]);
    expected.extend_from_slice(&[3, 2, 0, 0, 0, 0, 0, 0, 0, b'h', b'i']);
    expected.extend_from_slice(&[4, 1, 0, 0, 0, 0, 0, 0, 0, 1]);
    expected.extend_from_slice(&[5, 8, 0, 0, 0, 0, 0, 0, 0, 1, 2, 3, 4, 5, 6, 7, 8]);
    expected.extend_from_slice(&[6, 8, 0, 0, 0, 0, 0, 0, 0, 2, 1, 0, 0, 0, 0, 0, 0]);
    assert_eq!(bytes, expected);
}

#[test]
fn the_bytes_of_an_entry_without_reason_and_deadline() {
    let bytes = encode_rules(&vec![RuleEntry {
        ip: IpNet::V4(Ip4Net { addr: 0x0a00_0000, prefix: 8 }),
        action: RuleAction::Allow,
        reason: None,
        origin: RuleOrigin::Manual,
        created_at: 1,
        expires_at: None,
    }]);
    let mut expected = b"DSRK\x01".to_vec();
    expected.extend_from_slice(&[51, 0, 0, 0, 0, 0, 0, 0]);
    expected.extend_from_slice(&[1, 5, 0, 0, 0, 0, 0, 0, 0, 0, 0, 0, 10, 8]);
    expected.extend_from_slice(&[2, 1, 0, 0, 0, 0, 0, 0, 0, 1]);
    expected.extend_from_slice(&[4, 1, 0, 0, 0, 0, 0, 0, 0, 0]);
    expected.extend_from_slice(&[5, 8, 0, 0, 0, 0, 0, 0, 0, 1, 0, 0, 0, 0, 0, 0, 0]);
    assert_eq!(bytes, expected);
}

#[test]
fn entries_are_read_back_as_they_were_written() {
    let entries = vec![
        entry("10.0.0.5", Some("scanner"), Some(99_000)),
        entry("192.168.0.0/16", None, None),
        entry("1.2.3.4", Some(""), None),
        entry("8.8.8.8", Some("naïve café ☕ 测试"), Some(u64::MAX)),
        entry("2001:db8::1", Some("six"), Some(5)),
        entry("fe80::/10", None, None),
        RuleEntry {
            ip: IpNet::parse("9.9.9.9").unwrap(),
            action: RuleAction::Allow,
            reason: Some("let through".to_string()),
            origin: RuleOrigin::Imported,
            created_at: 0,
            expires_at: None,
        },
    ];
    let read = decode_rules(&encode_rules(&entries)).unwrap();
    assert_eq!(read.entries, entries);
    assert!(read.warnings.is_empty());
}

#[test]
fn a_file_must_start_as_a_file_does() {
    assert_eq!(decode_rules(b"").unwrap_err(), FormatError::BadMagic);
    assert_eq!(decode_rules(b"DSRK").unwrap_err(), FormatError::BadMagic);
    assert_eq!(decode_rules(b"DSRX\x01").unwrap_err(), FormatError::BadMagic);
    assert_eq!(decode_rules(b"dsrk\x01").unwrap_err(), FormatError::BadMagic);
    assert_eq!(decode_rules(b"<Objs Version=\"1.1\">").unwrap_err(), FormatError::BadMagic);
    assert_eq!(decode_rules(b"DSRK\x00").unwrap_err(), FormatError::BadVersion);
}

#[test]
fn a_file_of_a_later_version_is_read() {
    let mut bytes = encode_rules(&vec![entry("10.0.0.5", None, None)]);
    bytes[4] = 2;
    let read = decode_rules(&bytes).unwrap();
    assert_eq!(read.entries, vec![entry("10.0.0.5", None, None)]);
    bytes[4] = 255;
    assert_eq!(decode_rules(&bytes).unwrap().entries.len(), 1);
}

#[test]
fn a_frame_that_runs_past_the_end_spoils_the_file() {
    let good = encode_rules(&vec![entry("10.0.0.5", None, None), entry("10.0.0.6", None, None)]);
    for cut in 1..good.len() - 5 {
        let bytes = &good[..good.len() - cut];
        let read = decode_rules(bytes);
        if bytes.len() == 5 + 59 {
            assert_eq!(read.unwrap().entries.len(), 1);
        } else {
            assert_eq!(read.unwrap_err(), FormatError::Truncated, "cut {}", cut);
        }
    }
    let mut long = b"DSRK\x01".to_vec();
    long.extend_from_slice(&u64::MAX.to_le_bytes());
    assert_eq!(decode_rules(&long).unwrap_err(), FormatError::Truncated);
}

#[test]
fn an_unknown_field_is_skipped() {
    let mut b = field(200, b"something new");
    b.extend(body(&[5, 0, 0, 10, 32], 0, 0, 1000));
    b.extend(field(7, &[]));
    b.extend(field(0, &[1, 2, 3]));
    let read = decode_rules(&file(&[b])).unwrap();
    assert_eq!(read.entries, vec![entry("10.0.0.5", None, None)]);
    assert!(read.warnings.is_empty());
}

#[test]
fn the_later_of_two_fields_of_one_tag_counts() {
    let mut b = body(&[5, 0, 0, 10, 32], 0, 0, 1000);
    b.extend(field(TAG_CREATED, &2000u64.to_le_bytes()));
    b.extend(field(TAG_IP, &[6, 0, 0, 10, 32]));
    let read = decode_one(&b).unwrap();
    assert_eq!(read.created_at, 2000);
    assert_eq!(read.ip, IpNet::parse("10.0.0.6").unwrap());
}

#[test]
fn an_entry_lacks_a_field() {
    let ip = field(TAG_IP, &[5, 0, 0, 10, 32]);
    let action = field(TAG_ACTION, &[0]);
    let origin = field(TAG_ORIGIN, &[0]);
    let created = field(TAG_CREATED, &7u64.to_le_bytes());
    assert_eq!(decode_one(&[]), Err(EntryFault::Missing(TAG_IP)));
    assert_eq!(
        decode_one(&[action.clone(), origin.clone(), created.clone()].concat()),
        Err(EntryFault::Missing(TAG_IP))
    );
    assert_eq!(
        decode_one(&[ip.clone(), origin.clone(), created.clone()].concat()),
        Err(EntryFault::Missing(TAG_ACTION))
    );
    assert_eq!(
        decode_one(&[ip.clone(), action.clone(), created.clone()].concat()),
        Err(EntryFault::Missing(TAG_ORIGIN))
    );
    assert_eq!(
        decode_one(&[ip.clone(), action.clone(), origin.clone()].concat()),
        Err(EntryFault::Missing(TAG_CREATED))
    );
    assert!(decode_one(&[created, origin, action, ip].concat()).is_ok());
}

#[test]
fn a_field_holds_no_value_of_its_kind() {
    let good = body(&[5, 0, 0, 10, 32], 0, 0, 1000);
    let with = |extra: Vec<u8>| {
        let mut b = good.clone();
        b.extend(extra);
        decode_one(&b)
    };
    assert_eq!(with(field(TAG_IP, &[5, 0, 0, 10])), Err(EntryFault::Invalid(TAG_IP)));
    assert_eq!(with(field(TAG_IP, &[5, 0, 0, 10, 33])), Err(EntryFault::Invalid(TAG_IP)));
    assert_eq!(with(field(TAG_IP, &[5, 0, 0, 10, 24])), Err(EntryFault::Invalid(TAG_IP)));
    assert_eq!(with(field(TAG_IP, &[5, 0, 0, 10, 32, 0])), Err(EntryFault::Invalid(TAG_IP)));
    assert_eq!(with(field(TAG_ACTION, &[2])), Err(EntryFault::Invalid(TAG_ACTION)));
    assert_eq!(with(field(TAG_ACTION, &[])), Err(EntryFault::Invalid(TAG_ACTION)));
    assert_eq!(with(field(TAG_ACTION, &[0, 0])), Err(EntryFault::Invalid(TAG_ACTION)));
    assert_eq!(with(field(TAG_ORIGIN, &[9])), Err(EntryFault::Invalid(TAG_ORIGIN)));
    assert_eq!(with(field(TAG_CREATED, &[1, 2, 3])), Err(EntryFault::Invalid(TAG_CREATED)));
    assert_eq!(with(field(TAG_EXPIRES, &[0; 9])), Err(EntryFault::Invalid(TAG_EXPIRES)));
    assert_eq!(with(field(TAG_REASON, &[0xff, 0xfe])), Err(EntryFault::Invalid(TAG_REASON)));
    assert_eq!(with(field(TAG_REASON, &[0xc0, 0x80])), Err(EntryFault::Invalid(TAG_REASON)));
    assert_eq!(with(field(TAG_REASON, &[0xed, 0xa0, 0x80])), Err(EntryFault::Invalid(TAG_REASON)));
    assert_eq!(with(field(TAG_REASON, &[0xe2, 0x98])), Err(EntryFault::Invalid(TAG_REASON)));
    assert_eq!(
        with(field(TAG_IP, &[5, 0, 0, 10, 24])
            .into_iter()
            .chain(field(TAG_ACTION, &[7]))
            .collect()),
        Err(EntryFault::Invalid(TAG_IP))
    );
}

#[test]
fn the_text_of_a_reason_is_decoded() {
    let mut b = body(&[5, 0, 0, 10, 32], 0, 0, 1000);
    b.extend(field(TAG_REASON, "héllo ☕".as_bytes()));
    let read = decode_one(&b).unwrap();
    assert_eq!(read.reason.as_deref(), Some("héllo ☕"));
    assert_eq!(read.reason.unwrap().chars().count(), 7);
}

#[test]
fn only_a_block_has_a_deadline() {
    let mut b = body(&[5, 0, 0, 10, 32], 1, 0, 1000);
    assert_eq!(decode_one(&b).unwrap().action, RuleAction::Allow);
    b.extend(field(TAG_EXPIRES, &5u64.to_le_bytes()));
    assert_eq!(decode_one(&b), Err(EntryFault::Invalid(TAG_EXPIRES)));
}

#[test]
fn a_field_that_runs_past_the_end_spoils_the_entry() {
    let good = body(&[5, 0, 0, 10, 32], 0, 0, 1000);
    assert_eq!(decode_one(&good[..good.len() - 1]), Err(EntryFault::Truncated));
    assert_eq!(decode_one(&good[..3]), Err(EntryFault::Truncated));
    let mut b = good.clone();
    b.push(TAG_REASON);
    assert_eq!(decode_one(&b), Err(EntryFault::Truncated));
    let mut b = good.clone();
    b.push(TAG_REASON);
    b.extend_from_slice(&u64::MAX.to_le_bytes());
    assert_eq!(decode_one(&b), Err(EntryFault::Truncated));
    let mut b = field(TAG_ACTION, &[5]);
    b.push(TAG_REASON);
    assert_eq!(decode_one(&b), Err(EntryFault::Invalid(TAG_ACTION)));
}

#[test]
fn an_entry_that_cannot_be_read_is_skipped_with_a_warning() {
    let first = body(&[5, 0, 0, 10, 32], 0, 0, 1000);
    let bad = body(&[6, 0, 0, 10, 32], 9, 0, 1000);
    let third = body(&[7, 0, 0, 10, 32], 0, 0, 1000);
    let bytes = file(&[first, bad, third]);

    let read = decode_rules(&bytes).unwrap();
    assert_eq!(read.entries, vec![entry("10.0.0.5", None, None), entry("10.0.0.7", None, None)]);
    assert_eq!(
        read.warnings,
        vec![ImportWarning { index: 1, fault: EntryFault::Invalid(TAG_ACTION) }]
    );

    let mut store = FirewallManager::new().unwrap();
    let mut gw = Gateway::new(Counting::default());
    let report = store.import_rules(&mut gw, &bytes).unwrap();
    assert_eq!(report.warnings.len(), 1);
    assert_eq!(report.warnings[0].index, 1);
    assert_eq!(report.changes.installed, vec![1, 2]);
    assert!(report.changes.failed.is_empty());
    let snapshot = store.snapshot();
    assert_eq!(snapshot.len(), 2);
    assert!(snapshot.iter().all(|r| r.state == RuleState::Active));
    assert_eq!(gw.backend().applied, vec!["10.0.0.5", "10.0.0.7"]);
}

#[test]
fn a_file_that_cannot_be_read_changes_nothing() {
    let mut store = FirewallManager::new().unwrap();
    let mut gw = Gateway::new(Counting::default());
    store.block_ip(&mut gw, "1.1.1.1", None, None, 5).unwrap();
    let before = store.snapshot();
    assert_eq!(store.import_rules(&mut gw, b"garbage").unwrap_err(), FormatError::BadMagic);
    let cut = &encode_rules(&vec![entry("10.0.0.5", None, None)])[..20];
    assert_eq!(store.import_rules(&mut gw, cut).unwrap_err(), FormatError::Truncated);
    assert_eq!(store.snapshot(), before);
    assert_eq!(gw.backend().applied, vec!["1.1.1.1"]);
    assert!(gw.backend().retracted.is_empty());
}

fn without_ids(mut records: Vec<RuleRecord>) -> Vec<RuleRecord> {
    for r in records.iter_mut() {
        r.id = 0;
    }
    records
}

#[test]
fn a_store_comes_back_from_its_file() {
    let mut store = FirewallManager::new().unwrap();
    let mut gw = Gateway::new(Counting::default());
    store.block_ip(&mut gw, "10.0.0.5", Some(3600), Some("scanner"), 1_000).unwrap();
    store.block_ip(&mut gw, "7.7.7.7", None, None, 1_500).unwrap();
    store.block_ip(&mut gw, "192.168.0.0/16", None, Some("lan ☂"), 2_000).unwrap();
    store.block_ip(&mut gw, "1.2.3.4", Some(1), Some(""), 3_000).unwrap();
    store.allow_ip(&mut gw, "7.7.7.7").unwrap();
    let original = store.snapshot();
    assert_eq!(original.len(), 3);
    let bytes = store.export_rules();
    assert_eq!(bytes, export_snapshot(&original));

    let mut copy = FirewallManager::new().unwrap();
    let mut other = Gateway::new(Counting::default());
    let report = copy.import_rules(&mut other, &bytes).unwrap();
    assert!(report.warnings.is_empty());
    assert!(report.changes.failed.is_empty());
    assert!(report.changes.retracted.is_empty());
    assert_eq!(report.changes.installed, vec![1, 2, 3]);
    let restored = copy.snapshot();
    assert_eq!(without_ids(restored.clone()), without_ids(original.clone()));
    assert_eq!(restored.iter().map(|r| r.id).collect::<Vec<_>>(), vec![1, 2, 3]);
    assert_eq!(original.iter().map(|r| r.id).collect::<Vec<_>>(), vec![1, 3, 4]);
    assert_eq!(copy.next_deadline(), store.next_deadline());
    assert_eq!(copy.timer_count(), 2);
    assert_eq!(other.backend().applied, vec!["10.0.0.5", "192.168.0.0/16", "1.2.3.4"]);
    assert_eq!(copy.export_rules(), bytes);
}

#[test]
fn reconciling_retracts_what_is_not_wanted_and_installs_what_is_missing() {
    let mut store = FirewallManager::new().unwrap();
    let mut gw = Gateway::new(Counting::default());
    store.block_ip(&mut gw, "1.1.1.1", Some(100), Some("keep"), 10).unwrap();
    store.block_ip(&mut gw, "2.2.2.2", None, Some("drop"), 20).unwrap();
    store.block_ip(&mut gw, "3.3.3.3", None, Some("drop too"), 30).unwrap();
    let kept = store.snapshot()[0].clone();

    let mut desired = vec![
        entry("4.4.4.4", Some("new"), Some(5_000)),
        entry("1.1.1.1", Some("other reason"), None),
        entry("4.4.4.4", Some("again"), None),
    ];
    desired.push(RuleEntry { action: RuleAction::Allow, ..entry("3.3.3.3", None, None) });
    desired.push(RuleEntry { origin: RuleOrigin::Imported, ..entry("5.5.5.0/24", None, None) });
    let report = store.reconcile(&mut gw, &desired);

    let retracted: Vec<String> = report.retracted.iter().map(|r| r.ip.to_text()).collect();
    assert_eq!(retracted, vec!["2.2.2.2", "3.3.3.3"]);
    assert!(report.retracted.iter().all(|r| r.state == RuleState::Removed));
    assert_eq!(report.installed, vec![4, 5]);
    assert!(report.failed.is_empty());

    let snapshot = store.snapshot();
    assert_eq!(snapshot.len(), 3);
    assert_eq!(snapshot[0], kept);
    assert_eq!(snapshot[1].ip.to_text(), "4.4.4.4");
    assert_eq!(snapshot[1].reason.as_deref(), Some("new"));
    assert_eq!(snapshot[1].created_at, 1000);
    assert_eq!(snapshot[1].expires_at, Some(5_000));
    assert_eq!(snapshot[1].origin, RuleOrigin::Manual);
    assert_eq!(snapshot[1].state, RuleState::Active);
    assert_eq!(snapshot[2].ip.to_text(), "5.5.5.0/24");
    assert_eq!(snapshot[2].origin, RuleOrigin::Imported);
    assert_eq!(store.next_deadline(), Some(110_000.min(5_000)));
    assert_eq!(gw.backend().retracted, vec!["2.2.2.2", "3.3.3.3"]);
    assert_eq!(gw.backend().applied, vec!["1.1.1.1", "2.2.2.2", "3.3.3.3", "4.4.4.4", "5.5.5.0/24"]);
}

#[test]
fn reconciling_with_what_the_store_holds_changes_nothing() {
    let mut store = FirewallManager::new().unwrap();
    let mut gw = Gateway::new(Counting::default());
    store.block_ip(&mut gw, "1.1.1.1", Some(100), Some("a"), 10).unwrap();
    store.block_ip(&mut gw, "2.2.2.2", None, None, 20).unwrap();
    let before = store.snapshot();
    let bytes = store.export_rules();
    let report = store.import_rules(&mut gw, &bytes).unwrap();
    assert!(report.changes.installed.is_empty());
    assert!(report.changes.retracted.is_empty());
    assert!(report.changes.failed.is_empty());
    assert_eq!(store.snapshot(), before);
    assert_eq!(gw.backend().applied.len(), 2);
    assert!(gw.backend().retracted.is_empty());
}

#[test]
fn reconciling_with_nothing_empties_the_store() {
    let mut store = FirewallManager::new().unwrap();
    let mut gw = Gateway::new(Counting::default());
    store.block_ip(&mut gw, "1.1.1.1", Some(100), None, 10).unwrap();
    store.block_ip(&mut gw, "2.2.2.2", None, None, 20).unwrap();
    let report = store.reconcile(&mut gw, &vec![]);
    assert_eq!(report.retracted.len(), 2);
    assert_eq!(store.len(), 0);
    assert_eq!(store.timer_count(), 0);
}

#[test]
fn a_step_that_the_backend_refuses_is_noted_and_the_rest_goes_on() {
    let mut store = FirewallManager::new().unwrap();
    let mut gw = Gateway::new(Counting::default());
    store.block_ip(&mut gw, "1.1.1.1", Some(100), None, 10).unwrap();
    store.block_ip(&mut gw, "2.2.2.2", None, None, 20).unwrap();
    let mut backend = gw.into_backend();
    backend.refuse = vec!["1.1.1.1".to_string(), "4.4.4.4".to_string()];
    let mut gw = Gateway::new(backend);
    let desired = vec![entry("4.4.4.4", None, None), entry("5.5.5.5", None, None)];
    let report = store.reconcile(&mut gw, &desired);
    assert_eq!(
        report.failed,
        vec![IpNet::parse("1.1.1.1").unwrap(), IpNet::parse("4.4.4.4").unwrap()]
    );
    assert_eq!(report.retracted.len(), 1);
    assert_eq!(report.installed.len(), 1);
    let ips: Vec<String> = store.snapshot().iter().map(|r| r.ip.to_text()).collect();
    assert_eq!(ips, vec!["1.1.1.1", "5.5.5.5"]);
    assert_eq!(store.snapshot()[0].state, RuleState::Active);
    assert_eq!(store.next_deadline(), Some(100_010));
}

#[test]
fn stale_addresses_are_those_of_active_records_not_asked_for() {
    let mut store = FirewallManager::new().unwrap();
    let mut gw = Gateway::new(Counting::default());
    store.block_ip(&mut gw, "1.1.1.1", None, None, 10).unwrap();
    store.block_ip(&mut gw, "2.2.2.2", None, None, 20).unwrap();
    store.block_ip(&mut gw, "3.3.3.3", None, None, 30).unwrap();
    store.begin_block(IpNet::parse("4.4.4.4").unwrap(), None, 0, None, RuleOrigin::Manual);
    let desired = vec![
        entry("2.2.2.2", None, None),
        RuleEntry { action: RuleAction::Allow, ..entry("3.3.3.3", None, None) },
    ];
    assert_eq!(
        store.stale_ips(&desired),
        vec![IpNet::parse("1.1.1.1").unwrap(), IpNet::parse("3.3.3.3").unwrap()]
    );
    assert!(d_shark::manager::is_wanted(&desired, &IpNet::parse("2.2.2.2").unwrap()));
    assert!(!d_shark::manager::is_wanted(&desired, &IpNet::parse("3.3.3.3").unwrap()));
    assert!(!d_shark::manager::is_wanted(&desired, &IpNet::parse("9.9.9.9").unwrap()));
}

#[test]
fn the_bytes_of_an_address_of_the_later_family() {
    let mut ip = vec![0u8; 17];
    ip[0] = 1;
    ip[15] = 0x20;
    ip[16] = 128;
    let read = decode_one(&body(&ip, 0, 0, 1000)).unwrap();
    assert_eq!(read.ip, IpNet::parse("2000::1").unwrap());
    let bytes = encode_rules(&vec![entry("2000::1", None, None)]);
    assert_eq!(bytes[13], TAG_IP);
    assert_eq!(&bytes[14..22], &[17, 0, 0, 0, 0, 0, 0, 0]);
    assert_eq!(&bytes[22..39], ip.as_slice());
    ip[16] = 129;
    assert_eq!(decode_one(&body(&ip, 0, 0, 1000)), Err(EntryFault::Invalid(TAG_IP)));
    ip[16] = 8;
    assert_eq!(decode_one(&body(&ip, 0, 0, 1000)), Err(EntryFault::Invalid(TAG_IP)));
    assert_eq!(
        decode_one(&body(&[0u8; 16], 0, 0, 1000)),
        Err(EntryFault::Invalid(TAG_IP))
    );
}
