use d_shark::capture::{synthetic_packet, PacketCapture, PacketInfo, Tally};
use d_shark::scheduler::{ExpiryScheduler, Timer};
use d_shark::ui::{log_line, App, Connection, Key, LiveStats, View, PACKET_LOG_CAPACITY};

#[test]
fn the_screen_as_it_starts() {
    let app = App::new();
    assert_eq!(app.current_view, View::Packets);
    assert!(app.packet_log.is_empty());
    assert_eq!(
        app.firewall_rules,
        vec![
            "ALLOW 192.168.1.0/24 → ANY/ANY",
            "BLOCK 10.0.0.5 → ANY/22",
            "ALLOW ANY → 8.8.8.8/53",
            "BLOCK 192.168.1.100 → ANY/ANY",
        ]
    );
    assert_eq!(app.active_connections.len(), 4);
    assert_eq!(
        app.active_connections[0],
        Connection {
            protocol: "TCP".to_string(),
            source: "192.168.1.15:44324".to_string(),
            destination: "93.184.216.34:443".to_string(),
            status: "ESTABLISHED".to_string(),
            duration: "05:32".to_string(),
        }
    );
    assert_eq!(app.active_connections[3].status, "CLOSED");
    assert_eq!(
        app.stats,
        LiveStats {
            packets_per_second: 1234,
            traffic_in_tenths: 12,
            traffic_out_tenths: 8,
            active_connections: 45,
            blocked_connections: 12,
            active_rules: 24,
        }
    );
    assert_eq!(app.selected, Some(0));
    assert!(!app.should_quit);
}

#[test]
fn digits_choose_a_view() {
    let mut app = App::new();
    for (key, view) in [
        ('3', View::Firewall),
        ('5', View::Protocols),
        ('1', View::Packets),
        ('4', View::Geography),
        ('2', View::Sessions),
    ] {
        assert!(!app.handle_key(Key::Char(key)));
        assert_eq!(app.current_view, view);
    }
    assert!(!app.handle_key(Key::Char('6')));
    assert!(!app.handle_key(Key::Char('0')));
    assert!(!app.handle_key(Key::Char('x')));
    assert!(!app.handle_key(Key::Other));
    assert_eq!(app.current_view, View::Sessions);
    assert!(!app.should_quit);
}

#[test]
fn arrows_step_through_the_views() {
    let mut app = App::new();
    let order = [View::Packets, View::Sessions, View::Firewall, View::Geography, View::Protocols];
    for i in 0..10 {
        assert_eq!(app.current_view, order[i % 5]);
        assert!(!app.handle_key(Key::Right));
    }
    for i in (0..10).rev() {
        assert!(!app.handle_key(Key::Left));
        assert_eq!(app.current_view, order[i % 5]);
    }
    app.handle_key(Key::Left);
    assert_eq!(app.current_view, View::Protocols);
    for (i, view) in order.iter().enumerate() {
        assert_eq!(view.index(), i);
        assert_eq!(view.next(), order[(i + 1) % 5]);
        assert_eq!(view.prev(), order[(i + 4) % 5]);
        assert_eq!(view.next().prev(), *view);
    }
    assert_eq!(View::Packets.title(), "Packets");
    assert_eq!(View::Sessions.title(), "Sessions");
    assert_eq!(View::Firewall.title(), "Firewall");
    assert_eq!(View::Geography.title(), "Geography");
    assert_eq!(View::Protocols.title(), "Protocols");
}

#[test]
fn up_and_down_move_the_selection_within_the_list() {
    let mut app = App::new();
    assert!(!app.handle_key(Key::Up));
    assert_eq!(app.selected, Some(0));
    for expected in [1, 2, 3, 3, 3] {
        assert!(!app.handle_key(Key::Down));
        assert_eq!(app.selected, Some(expected));
    }
    for expected in [2, 1, 0, 0] {
        assert!(!app.handle_key(Key::Up));
        assert_eq!(app.selected, Some(expected));
    }
    app.selected = None;
    app.handle_key(Key::Down);
    app.handle_key(Key::Up);
    assert_eq!(app.selected, None);
    app.selected = Some(0);
    app.firewall_rules.clear();
    app.handle_key(Key::Down);
    assert_eq!(app.selected, Some(0));
}

#[test]
fn q_and_escape_ask_to_leave() {
    for key in [Key::Char('q'), Key::Char('Q'), Key::Esc] {
        let mut app = App::new();
        app.handle_key(Key::Char('3'));
        assert!(app.handle_key(key));
        assert!(app.should_quit);
        assert_eq!(app.current_view, View::Firewall);
        assert_eq!(app.selected, Some(0));
    }
}

#[test]
fn a_tick_moves_the_figures() {
    let mut app = App::new();
    app.tick(1);
    assert_eq!(
        app.stats,
        LiveStats {
            packets_per_second: 1201,
            traffic_in_tenths: 13,
            traffic_out_tenths: 9,
            active_connections: 41,
            blocked_connections: 11,
            active_rules: 24,
        }
    );
    assert!(app.packet_log.is_empty());
    app.tick(239);
    assert_eq!(app.stats.packets_per_second, 1239);
    assert_eq!(app.stats.traffic_in_tenths, 21);
    assert_eq!(app.stats.traffic_out_tenths, 15);
    assert_eq!(app.stats.active_connections, 49);
    assert_eq!(app.stats.blocked_connections, 14);
    app.tick(u64::MAX);
    assert_eq!(app.stats.packets_per_second, 1215);
    assert_eq!(app.packet_log.len(), 1);
}

#[test]
fn every_third_tick_logs_a_line() {
    let mut app = App::new();
    for counter in 1..=7 {
        app.tick(counter);
    }
    assert_eq!(
        app.packet_log.iter().cloned().collect::<Vec<_>>(),
        vec!["Packet 6: UDP 192.168.1.6 -> 10.0.0.7", "Packet 3: DNS 192.168.1.3 -> 10.0.0.4"]
    );
    assert_eq!(log_line(0), "Packet 0: TCP 192.168.1.0 -> 10.0.0.1");
    assert_eq!(log_line(254), "Packet 254: HTTPS 192.168.1.254 -> 10.0.0.0");
    assert_eq!(log_line(255), "Packet 255: TCP 192.168.1.0 -> 10.0.0.1");
    assert_eq!(log_line(12), "Packet 12: HTTP 192.168.1.12 -> 10.0.0.13");
    assert_eq!(
        log_line(u64::MAX),
        "Packet 18446744073709551615: TCP 192.168.1.0 -> 10.0.0.1"
    );
}

#[test]
fn the_log_keeps_its_newest_lines() {
    let mut app = App::new();
    for counter in 1..=(3 * PACKET_LOG_CAPACITY as u64 + 9) {
        app.tick(counter);
    }
    assert_eq!(app.packet_log.len(), PACKET_LOG_CAPACITY);
    assert_eq!(app.packet_log[0], log_line(159));
    assert_eq!(app.packet_log[49], log_line(12));
}

#[test]
fn a_capture_starts_with_nothing_seen() {
    let capture = PacketCapture::new("eth0").unwrap();
    assert_eq!(capture.interface(), "eth0");
    assert_eq!(capture.packet_count(), 0);
    assert_eq!(capture.unique_connections(), 0);
    assert!(capture.protocol_counts().is_empty());
}

#[test]
fn the_synthetic_packets() {
    let p = synthetic_packet(1, 77);
    assert_eq!(
        p,
        PacketInfo {
            timestamp: 77,
            source_ip: "10.0.0.1".to_string(),
            dest_ip: "172.16.1.2".to_string(),
            protocol: "UDP".to_string(),
            source_port: Some(30001),
            dest_port: Some(8081),
            size: 74,
        }
    );
    let p = synthetic_packet(2, 0);
    assert_eq!((p.protocol.as_str(), p.dest_port), ("HTTP", Some(80)));
    assert_eq!((p.source_ip.as_str(), p.dest_ip.as_str()), ("172.16.1.2", "192.168.1.3"));
    let p = synthetic_packet(3, 0);
    assert_eq!((p.protocol.as_str(), p.dest_port), ("DNS", Some(53)));
    let p = synthetic_packet(4, 0);
    assert_eq!((p.protocol.as_str(), p.dest_port), ("HTTPS", Some(443)));
    let p = synthetic_packet(5, 0);
    assert_eq!((p.protocol.as_str(), p.dest_port), ("ICMP", Some(8085)));
    let p = synthetic_packet(6, 0);
    assert_eq!((p.protocol.as_str(), p.dest_port), ("TCP", Some(8086)));
    let p = synthetic_packet(20, 0);
    assert_eq!(p.size, 264);
    assert_eq!(p.source_port, Some(30020));
    assert_eq!(p.source_ip, "172.16.1.20");
    assert_eq!(p.dest_ip, "192.168.1.21");
    let p = synthetic_packet(1234, 0);
    assert_eq!(p.source_port, Some(30234));
    assert_eq!(p.dest_port, Some(443));
    let p = synthetic_packet(1235, 0);
    assert_eq!(p.source_port, Some(30235));
    assert_eq!(p.dest_port, Some(8115));
}

#[test]
fn a_capture_counts_what_it_sees() {
    let mut capture = PacketCapture::new("wlan0").unwrap();
    let mut lines = Vec::new();
    for i in 1..=8 {
        capture.count_packet();
        lines.push(capture.process_packet(&synthetic_packet(i, 0)));
    }
    capture.count_packet();
    lines.push(capture.process_packet(&synthetic_packet(1, 5)));
    assert_eq!(lines[0], "📦 Packet 1: UDP 10.0.0.1:30001 -> 172.16.1.2:8081 (74 bytes)");
    assert_eq!(lines[1], "📦 Packet 2: HTTP 172.16.1.2:30002 -> 192.168.1.3:80 (84 bytes)");
    assert_eq!(lines[8], "📦 Packet 9: UDP 10.0.0.1:30001 -> 172.16.1.2:8081 (74 bytes)");
    assert_eq!(capture.packet_count(), 9);
    assert_eq!(capture.unique_connections(), 8);
    assert_eq!(
        capture.protocol_counts(),
        vec![
            ("UDP".to_string(), 3),
            ("HTTP".to_string(), 2),
            ("DNS".to_string(), 1),
            ("HTTPS".to_string(), 1),
            ("ICMP".to_string(), 1),
            ("TCP".to_string(), 1),
        ]
    );
    let unknown = PacketInfo {
        timestamp: 0,
        source_ip: "a".to_string(),
        dest_ip: "b".to_string(),
        protocol: "GRE".to_string(),
        source_port: None,
        dest_port: None,
        size: 0,
    };
    capture.count_packet();
    assert_eq!(capture.process_packet(&unknown), "📦 Packet 10: GRE a:? -> b:? (0 bytes)");
}

#[test]
fn taking_a_packet_in_leaves_the_count_of_packets_alone() {
    let mut capture = PacketCapture::new("eth0").unwrap();
    let line = capture.process_packet(&synthetic_packet(1, 0));
    assert_eq!(line, "📦 Packet 0: UDP 10.0.0.1:30001 -> 172.16.1.2:8081 (74 bytes)");
    assert_eq!(capture.packet_count(), 0);
    assert_eq!(capture.unique_connections(), 1);
    assert_eq!(capture.protocol_counts(), vec![("UDP".to_string(), 1)]);
    assert_eq!(capture.interface(), "eth0");
    capture.process_packet(&synthetic_packet(1, 0));
    assert_eq!(capture.packet_count(), 0);
    assert_eq!(capture.protocol_counts(), vec![("UDP".to_string(), 2)]);
}

#[test]
fn counting_a_packet_changes_the_count_alone() {
    let mut capture = PacketCapture::new("eth0").unwrap();
    capture.process_packet(&synthetic_packet(1, 0));
    capture.count_packet();
    capture.count_packet();
    assert_eq!(capture.packet_count(), 2);
    assert_eq!(capture.unique_connections(), 1);
    assert_eq!(capture.protocol_counts(), vec![("UDP".to_string(), 1)]);
    assert_eq!(capture.interface(), "eth0");
}

#[test]
fn a_tally_counts_by_key() {
    let mut tally = Tally::new();
    assert_eq!(tally.len(), 0);
    assert_eq!(tally.get("a"), 0);
    tally.bump("a");
    tally.bump("b");
    tally.bump("a");
    tally.bump("");
    assert_eq!(tally.len(), 3);
    assert_eq!(tally.get("a"), 2);
    assert_eq!(tally.get("b"), 1);
    assert_eq!(tally.get(""), 1);
    assert_eq!(tally.get("c"), 0);
    assert_eq!(
        tally.entries(),
        vec![("a".to_string(), 2), ("b".to_string(), 1), ("".to_string(), 1)]
    );
}

#[test]
fn the_scheduler_keeps_its_timers_in_order() {
    let mut scheduler = ExpiryScheduler::new();
    assert_eq!(scheduler.len(), 0);
    assert_eq!(scheduler.next_deadline(), None);
    assert_eq!(scheduler.pop_due(u64::MAX), None);
    assert_eq!(scheduler.peek(), None);
    scheduler.schedule(1, 300);
    scheduler.schedule(2, 100);
    scheduler.schedule(3, 200);
    scheduler.schedule(4, 100);
    assert_eq!(scheduler.len(), 4);
    assert_eq!(scheduler.next_deadline(), Some(100));
    assert_eq!(scheduler.peek(), Some(Timer { deadline: 100, id: 2 }));
    scheduler.schedule(3, 500);
    assert_eq!(scheduler.len(), 4);
    assert_eq!(scheduler.deadline_for(3), Some(500));
    scheduler.schedule(3, 200);
    assert_eq!(scheduler.len(), 4);
    assert_eq!(scheduler.deadline_for(3), Some(200));
    assert_eq!(scheduler.deadline_for(9), None);
    scheduler.schedule(9, 100);
    scheduler.schedule(0, 100);
    assert_eq!(scheduler.pop_due(100), Some(Timer { deadline: 100, id: 0 }));
    assert!(scheduler.cancel(9));
    assert!(scheduler.is_scheduled(3));
    assert!(!scheduler.is_scheduled(9));
    assert_eq!(scheduler.pop_due(99), None);
    assert_eq!(scheduler.pop_due(100), Some(Timer { deadline: 100, id: 2 }));
    assert_eq!(scheduler.pop_due(100), Some(Timer { deadline: 100, id: 4 }));
    assert_eq!(scheduler.pop_due(100), None);
    assert!(scheduler.cancel(3));
    assert!(!scheduler.cancel(3));
    assert!(!scheduler.cancel(2));
    assert_eq!(scheduler.next_deadline(), Some(300));
    assert_eq!(scheduler.pop_due(1000), Some(Timer { deadline: 300, id: 1 }));
    assert_eq!(scheduler.len(), 0);
}
