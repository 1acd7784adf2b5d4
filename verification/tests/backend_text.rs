use d_shark::address::IpNet;
use d_shark::backend::BackendError;
use d_shark::ipv4::Ip4Net;
use d_shark::powershell::{
    append_escaped, block_command, command_outcome, count_command, count_outcome, parse_count,
    profile_command, remove_command, rule_name,
};
use d_shark::record::{RuleAction, RuleOrigin, RuleRecord, RuleState};
use d_shark::stats::{aggregate, FirewallStats};

#[test]
fn the_name_of_a_rule() {
    assert_eq!(rule_name(&IpNet::parse("10.0.0.5").unwrap()), "d-shark_block_10_0_0_5");
    assert_eq!(rule_name(&IpNet::parse("192.168.1.100").unwrap()), "d-shark_block_192_168_1_100");
    assert_eq!(rule_name(&IpNet::parse("10.0.0.0/8").unwrap()), "d-shark_block_10_0_0_0/8");
}

#[test]
fn the_command_that_blocks() {
    assert_eq!(
        block_command(&IpNet::parse("10.0.0.5").unwrap(), None),
        "New-NetFirewallRule -DisplayName 'd-shark_block_10_0_0_5' -Direction Inbound -RemoteAddress 10.0.0.5 -Action Block -Protocol Any -Profile Any"
    );
    assert_eq!(
        block_command(&IpNet::parse("1.2.3.0/24").unwrap(), Some("port scan")),
        "New-NetFirewallRule -DisplayName 'd-shark_block_1_2_3_0/24' -Direction Inbound -RemoteAddress 1.2.3.0/24 -Action Block -Protocol Any -Profile Any -Description 'port scan'"
    );
}

#[test]
fn a_quote_in_a_reason_does_not_end_the_quoted_text() {
    let ip = IpNet::parse("10.0.0.5").unwrap();
    assert_eq!(
        block_command(&ip, Some("it's a scan")),
        "New-NetFirewallRule -DisplayName 'd-shark_block_10_0_0_5' -Direction Inbound -RemoteAddress 10.0.0.5 -Action Block -Protocol Any -Profile Any -Description 'it''s a scan'"
    );
    assert_eq!(
        block_command(&ip, Some("'; Remove-Item x; '")),
        "New-NetFirewallRule -DisplayName 'd-shark_block_10_0_0_5' -Direction Inbound -RemoteAddress 10.0.0.5 -Action Block -Protocol Any -Profile Any -Description '''; Remove-Item x; '''"
    );
    assert_eq!(
        block_command(&ip, Some("")),
        "New-NetFirewallRule -DisplayName 'd-shark_block_10_0_0_5' -Direction Inbound -RemoteAddress 10.0.0.5 -Action Block -Protocol Any -Profile Any -Description ''"
    );
    assert_eq!(
        remove_command("a'b"),
        "Remove-NetFirewallRule -DisplayName 'a''b' -ErrorAction SilentlyContinue"
    );
    let mut out = String::from("<");
    append_escaped(&mut out, "naïve 'é' ☕''");
    assert_eq!(out, "<naïve ''é'' ☕''''");
}

#[test]
fn the_command_that_removes() {
    assert_eq!(
        remove_command("d-shark_block_10_0_0_5"),
        "Remove-NetFirewallRule -DisplayName 'd-shark_block_10_0_0_5' -ErrorAction SilentlyContinue"
    );
}

#[test]
fn the_commands_that_switch_and_count() {
    assert_eq!(
        profile_command(true),
        "Set-NetFirewallProfile -Profile Domain,Public,Private -Enabled True"
    );
    assert_eq!(
        profile_command(false),
        "Set-NetFirewallProfile -Profile Domain,Public,Private -Enabled False"
    );
    assert_eq!(
        count_command(false),
        "Get-NetFirewallRule | Measure-Object | Select-Object -ExpandProperty Count"
    );
    assert_eq!(
        count_command(true),
        "Get-NetFirewallRule | Where-Object {$_.Action -eq 'Block'} | Measure-Object | Select-Object -ExpandProperty Count"
    );
}

#[test]
fn a_count_is_read_from_what_was_printed() {
    assert_eq!(parse_count(b"42"), 42);
    assert_eq!(parse_count(b"42\r\n"), 42);
    assert_eq!(parse_count(b"  \t 7 \n\n"), 7);
    assert_eq!(parse_count(b"+7"), 7);
    assert_eq!(parse_count(b"007"), 7);
    assert_eq!(parse_count(b"0"), 0);
    assert_eq!(parse_count(b"18446744073709551615"), u64::MAX);
    assert_eq!(parse_count(b"\x0b\x0c12\x0b\x0c"), 12);
}

#[test]
fn what_is_no_count_reads_as_zero() {
    assert_eq!(parse_count(b""), 0);
    assert_eq!(parse_count(b"   "), 0);
    assert_eq!(parse_count(b"abc"), 0);
    assert_eq!(parse_count(b"4 2"), 0);
    assert_eq!(parse_count(b"-3"), 0);
    assert_eq!(parse_count(b"+"), 0);
    assert_eq!(parse_count(b"+ 3"), 0);
    assert_eq!(parse_count(b"3.5"), 0);
    assert_eq!(parse_count(b"18446744073709551616"), 0);
    assert_eq!(parse_count(b"12\x00"), 0);
    assert_eq!(parse_count("12\u{a0}".as_bytes()), 0);
    assert_eq!(parse_count(b"Get-NetFirewallRule : Access is denied"), 0);
}

fn record(id: u64, state: RuleState) -> RuleRecord {
    RuleRecord {
        id,
        ip: IpNet::V4(Ip4Net { addr: id as u32, prefix: 32 }),
        action: RuleAction::Block,
        created_at: 0,
        expires_at: None,
        reason: None,
        origin: RuleOrigin::Manual,
        state,
    }
}

#[test]
fn the_counters_of_a_snapshot() {
    let snapshot = vec![
        record(1, RuleState::Active),
        record(2, RuleState::Pending),
        record(3, RuleState::Active),
        record(4, RuleState::Expiring),
        record(5, RuleState::Removed),
        record(6, RuleState::Active),
    ];
    assert_eq!(
        aggregate(&snapshot, 12, 5),
        FirewallStats { active_rules: 3, blocked_connections: 500, total_packets: 12_000 }
    );
    assert_eq!(
        aggregate(&vec![], 0, 0),
        FirewallStats { active_rules: 0, blocked_connections: 0, total_packets: 0 }
    );
}

#[test]
fn the_estimates_stop_at_the_greatest_number() {
    let stats = aggregate(&vec![], u64::MAX, u64::MAX);
    assert_eq!(stats.blocked_connections, u64::MAX);
    assert_eq!(stats.total_packets, u64::MAX);
    let stats = aggregate(&vec![], u64::MAX / 1000, u64::MAX / 100);
    assert_eq!(stats.total_packets, u64::MAX / 1000 * 1000);
    assert_eq!(stats.blocked_connections, u64::MAX / 100 * 100);
    let stats = aggregate(&vec![], u64::MAX / 1000 + 1, u64::MAX / 100 + 1);
    assert_eq!(stats.total_packets, u64::MAX);
    assert_eq!(stats.blocked_connections, u64::MAX);
}

#[test]
fn what_the_run_of_a_command_comes_to() {
    assert_eq!(command_outcome(true, "Failed to remove rule", "ignored"), Ok(()));
    assert_eq!(command_outcome(true, "", ""), Ok(()));
    assert_eq!(
        command_outcome(false, "Failed to create firewall rule", "Access is denied."),
        Err(BackendError::Rejected("Failed to create firewall rule: Access is denied.".to_string()))
    );
    assert_eq!(command_outcome(false, "", ""), Err(BackendError::Rejected(": ".to_string())));
    assert_eq!(count_outcome(true, b" 12\r\n"), 12);
    assert_eq!(count_outcome(false, b" 12\r\n"), 0);
    assert_eq!(count_outcome(true, b"none"), 0);
}

#[test]
fn the_command_that_blocks_an_address_of_the_later_family() {
    let ip = IpNet::parse("2001:db8::1").unwrap();
    assert_eq!(rule_name(&ip), "d-shark_block_2001:db8:0:0:0:0:0:1");
    assert_eq!(
        block_command(&ip, None),
        "New-NetFirewallRule -DisplayName 'd-shark_block_2001:db8:0:0:0:0:0:1' -Direction Inbound -RemoteAddress 2001:db8:0:0:0:0:0:1 -Action Block -Protocol Any -Profile Any"
    );
    assert_eq!(
        rule_name(&IpNet::parse("fe80::/10").unwrap()),
        "d-shark_block_fe80:0:0:0:0:0:0:0/10"
    );
}
