use netray::monitor::{names_distinct, InterfaceReading, InterfaceStats, NetworkMonitor};

fn reading(name: &str, received: u64, transmitted: u64) -> InterfaceReading {
    InterfaceReading {
        name: name.to_string(),
        received,
        transmitted,
        total_received: received * 10,
        total_transmitted: transmitted * 10,
        mac: "00:11:22:33:44:55".to_string(),
    }
}

#[test]
fn new_monitor_starts_empty() {
    let m = NetworkMonitor::new();
    assert!(m.interfaces.is_empty());
    assert_eq!(m.total_recv, 0);
    assert_eq!(m.total_sent, 0);
    assert_eq!(m.total_recv_speed, 0);
    assert_eq!(m.total_sent_speed, 0);
}

#[test]
fn refresh_derives_speeds_from_interval_bytes() {
    let mut m = NetworkMonitor::new();
    let next = vec![reading("en0", 2_048, 1_024), reading("lo0", 10, 0)];
    assert!(m.can_refresh(&next, 2_000_000_000));
    m.refresh(&next, 2_000_000_000);
    assert_eq!(m.interfaces.len(), 2);
    assert_eq!(m.interfaces[0].0, "en0");
    assert_eq!(m.interfaces[0].1.recv_speed, 1_024);
    assert_eq!(m.interfaces[0].1.sent_speed, 512);
    assert_eq!(m.interfaces[0].1.received, 2_048);
    assert_eq!(m.interfaces[0].1.total_received, 20_480);
    assert_eq!(m.interfaces[0].1.mac, "00:11:22:33:44:55");
    assert_eq!(m.interfaces[1].1.recv_speed, 5);
    assert_eq!(m.interfaces[1].1.sent_speed, 0);
    assert_eq!(m.total_recv, 2_058);
    assert_eq!(m.total_sent, 1_024);
    assert_eq!(m.total_recv_speed, 1_029);
    assert_eq!(m.total_sent_speed, 512);
}

#[test]
fn session_totals_accumulate_over_refreshes() {
    let mut m = NetworkMonitor::new();
    m.refresh(&vec![reading("en0", 1_000, 300), reading("en1", 20, 0)], 1_000_000_000);
    m.refresh(&vec![reading("en0", 500, 700)], 1_000_000_000);
    assert_eq!(m.total_recv, 1_520);
    assert_eq!(m.total_sent, 1_000);
    assert_eq!(m.total_recv_speed, 500);
    assert_eq!(m.total_sent_speed, 700);
    assert_eq!(m.interfaces.len(), 1);
}

#[test]
fn one_second_speeds_are_the_interval_bytes() {
    let mut m = NetworkMonitor::new();
    m.refresh(&vec![reading("en0", 123_456, 789), reading("en1", 1, 2)], 1_000_000_000);
    assert_eq!(m.interfaces[0].1.recv_speed, 123_456);
    assert_eq!(m.interfaces[0].1.sent_speed, 789);
    assert_eq!(m.interfaces[1].1.recv_speed, 1);
    assert_eq!(m.interfaces[1].1.sent_speed, 2);
}

#[test]
fn idle_interval_reports_no_speed() {
    let readings = vec![reading("en0", 0, 0), reading("en1", 0, 0)];
    let mut m = NetworkMonitor::new();
    m.refresh(&readings, 1_000_000_000);
    assert_eq!(m.total_recv_speed, 0);
    assert_eq!(m.total_sent_speed, 0);
    assert!(m.interfaces.iter().all(|(_, s)| s.recv_speed == 0 && s.sent_speed == 0));
}

#[test]
fn elapsed_time_is_at_least_a_millisecond() {
    let mut m = NetworkMonitor::new();
    m.refresh(&vec![reading("en0", 5, 0)], 0);
    assert_eq!(m.interfaces[0].1.recv_speed, 5_000);
    let mut m = NetworkMonitor::new();
    m.refresh(&vec![reading("en0", u64::MAX, 0)], 1);
    assert_eq!(m.interfaces[0].1.recv_speed, u64::MAX);
}

#[test]
fn overflowing_totals_are_refused_before_refresh() {
    let m = NetworkMonitor::new();
    let next = vec![reading("en0", u64::MAX, 0), reading("en1", 1, 0)];
    assert!(!m.can_refresh(&next, 1_000_000_000));
    let mut m = NetworkMonitor::new();
    m.refresh(&vec![reading("en0", u64::MAX - 5, 0)], 1_000_000_000_000);
    assert!(m.can_refresh(&vec![reading("en0", 5, 0)], 1_000_000_000));
    assert!(!m.can_refresh(&vec![reading("en0", 6, 0)], 1_000_000_000));
}

#[test]
fn virtual_interfaces_are_not_real() {
    for name in ["lo0", "bridge100", "utun3", "awdl0", "llw0", "ipsec1", "vmnet8"] {
        assert!(!NetworkMonitor::is_real_interface(name), "{}", name);
    }
    for name in ["en0", "en1", "eth0", "wlan0", "l0", "ap1", ""] {
        assert!(NetworkMonitor::is_real_interface(name), "{}", name);
    }
}

fn stats(recv_speed: u64, sent_speed: u64, received: u64) -> InterfaceStats {
    InterfaceStats {
        received,
        transmitted: 0,
        total_received: 0,
        total_transmitted: 0,
        recv_speed,
        sent_speed,
        mac: String::new(),
    }
}

#[test]
fn active_interfaces_are_real_busy_and_busiest_first() {
    let mut m = NetworkMonitor::new();
    m.interfaces = vec![
        ("en0".to_string(), stats(10, 5, 100)),
        ("lo0".to_string(), stats(900, 900, 100)),
        ("en1".to_string(), stats(0, 0, 0)),
        ("en2".to_string(), stats(100, 0, 1)),
        ("en3".to_string(), stats(0, 0, 7)),
        ("en4".to_string(), stats(10, 5, 3)),
    ];
    let active: Vec<&str> = m.active_interfaces().iter().map(|(n, _)| n.as_str()).collect();
    assert_eq!(active, vec!["en2", "en0", "en4", "en3"]);
}

/// The speed as computed through `f64` seconds, rounded toward zero.
fn float_speed(delta: u64, elapsed_nanos: u64) -> u64 {
    let secs = std::time::Duration::from_nanos(elapsed_nanos).as_secs_f64().max(0.001);
    (delta as f64 / secs) as u64
}

#[test]
fn speeds_agree_with_float_seconds_within_rounding() {
    let mut x: u64 = 0x2545_F491_4F6C_DD1D;
    for _ in 0..20_000 {
        x ^= x << 13;
        x ^= x >> 7;
        x ^= x << 17;
        let delta = x >> (x % 61);
        let elapsed = (x.rotate_left(17) >> (x % 37)) % 10_000_000_000;
        let mut m = NetworkMonitor::new();
        m.refresh(&vec![reading("en0", delta, 0)], elapsed);
        let exact = m.interfaces[0].1.recv_speed;
        let float = float_speed(delta, elapsed);
        let tolerance = std::cmp::max(1, exact >> 50);
        assert!(exact.abs_diff(float) <= tolerance, "delta {} elapsed {}: {} vs {}", delta, elapsed, exact, float);
    }
}

#[test]
fn readings_with_one_name_twice_are_recognised() {
    assert!(names_distinct(&vec![reading("en0", 1, 1), reading("en1", 1, 1)]));
    assert!(!names_distinct(&vec![reading("en0", 1, 1), reading("en1", 1, 1), reading("en0", 2, 2)]));
    assert!(names_distinct(&vec![]));
}
