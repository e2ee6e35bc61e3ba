use netray::app_rows::{
    app_row, appearance_is_dark, header_row, magnitude, placeholder_row, range_applies, truncate,
    Magnitude,
};
use netray::app_monitor::AppUsage;
use netray::labels::{
    amount_label, interface_label, interface_labels, interface_line, menu_texts, rate_label,
    short_name, tooltip_text,
};
use netray::monitor::{InterfaceStats, NetworkMonitor};
use netray::speed::{title_lines, two_line_text};
use netray::state::{AppState, NetworkState, UiAction, UiEvent};

fn stats(recv_speed: u64, sent_speed: u64, total_received: u64, total_transmitted: u64) -> InterfaceStats {
    InterfaceStats {
        received: 1,
        transmitted: 1,
        total_received,
        total_transmitted,
        recv_speed,
        sent_speed,
        mac: String::new(),
    }
}

fn snapshot(recv: u64, sent: u64) -> NetworkState {
    let mut s = NetworkState::new();
    s.recv_speed = recv;
    s.sent_speed = sent;
    s
}

#[test]
fn title_shows_upload_over_download_at_constant_width() {
    let (top, bottom) = title_lines(6144, 4096);
    assert_eq!(top, "\u{2191} 4.0K/s\u{2007}");
    assert_eq!(bottom, "\u{2193} 6.0K/s\u{2007}");
    assert_eq!(top.chars().count(), 9);
    let (top, bottom) = title_lines(0, 1_073_741_824);
    assert_eq!(top, "\u{2191} 1.00G/s");
    assert_eq!(bottom, "\u{2193} 0K/s\u{2007}\u{2007}\u{2007}");
    let (top, _) = title_lines(0, 20 * 1_073_741_824);
    assert_eq!(top, "\u{2191} 20G/s\u{2007}\u{2007}");
    let (top, bottom) = title_lines(u64::MAX, u64::MAX);
    assert_eq!(top, "\u{2191} 16E/s\u{2007}\u{2007}");
    assert_eq!(bottom, "\u{2193} 16E/s\u{2007}\u{2007}");
    assert_eq!(two_line_text("a", "b"), "a\nb");
}

#[test]
fn short_names_stop_at_the_first_colon() {
    assert_eq!(short_name("en0:1"), "en0");
    assert_eq!(short_name("en0"), "en0");
    assert_eq!(short_name(":x"), "");
    assert_eq!(short_name("a:b:c"), "a");
}

#[test]
fn labels_are_composed_around_byte_counts() {
    assert_eq!(rate_label("\u{2193} ", "4.1 KB"), "\u{2193} 4.1 KB/s");
    assert_eq!(amount_label("Session \u{2191} ", "3 B"), "Session \u{2191} 3 B");
    assert_eq!(tooltip_text("1 B", "2 B"), "NeTray\n\u{2193} 1 B/s  \u{2191} 2 B/s");
    assert_eq!(
        interface_line("en0:2", "1 B", "2 B", "3 B"),
        "en0  \u{2193} 1 B/s  \u{2191} 2 B/s   3 B B"
    );
}

#[test]
fn interface_labels_use_bytesize() {
    let line = interface_label("en0", &stats(512, 4096, 100, 200)).unwrap();
    assert_eq!(line, "en0  \u{2193} 512 B/s  \u{2191} 4.1 KB/s   300 B B");
    assert!(interface_label("en0", &stats(0, 0, u64::MAX, 1)).is_none());
    assert_eq!(interface_labels(&vec![]).unwrap(), vec!["No active interfaces".to_string()]);
    let lines = interface_labels(&vec![("en1".to_string(), stats(1, 2, 3, 4))]).unwrap();
    assert_eq!(lines, vec!["en1  \u{2193} 1 B/s  \u{2191} 2 B/s   7 B B".to_string()]);
}

#[test]
fn menu_texts_follow_the_state() {
    let mut state = AppState::new();
    let mut snap = snapshot(2048, 999);
    snap.total_recv = 5;
    snap.total_sent = 1_500_000;
    state.update(&snap);
    let t = menu_texts(&state).unwrap();
    assert_eq!(t.recv_speed, "\u{2193} 2.0 KB/s");
    assert_eq!(t.sent_speed, "\u{2191} 999 B/s");
    assert_eq!(t.total_recv, "Session \u{2193} 5 B");
    assert_eq!(t.total_sent, "Session \u{2191} 1.5 MB");
    assert_eq!(t.peak_recv, "Peak \u{2193} 2.0 KB/s");
    assert_eq!(t.peak_sent, "Peak \u{2191} 999 B/s");
    assert_eq!(t.title_top, "\u{2191} 0K/s\u{2007}\u{2007}\u{2007}");
    assert_eq!(t.title_bottom, "\u{2193} 2.0K/s\u{2007}");
    assert_eq!(t.tooltip, "NeTray\n\u{2193} 2.0 KB/s  \u{2191} 999 B/s");
    assert_eq!(t.interfaces, vec!["No active interfaces".to_string()]);
}

#[test]
fn peaks_only_rise_until_reset() {
    let mut state = AppState::new();
    state.update(&snapshot(100, 7));
    state.update(&snapshot(50, 9));
    assert_eq!((state.peak_recv, state.peak_sent), (100, 9));
    assert_eq!(state.network.recv_speed, 50);
    assert_eq!(state.handle(UiEvent::ResetClicked), UiAction::ApplyToUi);
    assert_eq!((state.peak_recv, state.peak_sent), (1, 1));
    assert_eq!(state.handle(UiEvent::Refresh(Some(snapshot(0, 3)))), UiAction::Nothing);
    assert_eq!((state.peak_recv, state.peak_sent), (1, 3));
}

#[test]
fn events_map_to_actions() {
    let mut state = AppState::new();
    assert_eq!(state.handle(UiEvent::QuitClicked), UiAction::Exit);
    assert_eq!(state.handle(UiEvent::OtherMenuItem), UiAction::Nothing);
    assert_eq!(state.handle(UiEvent::Refresh(None)), UiAction::Nothing);
    assert_eq!(state.handle(UiEvent::Idle { since_last_ui_ms: 999 }), UiAction::Nothing);
    assert_eq!(state.handle(UiEvent::Idle { since_last_ui_ms: 1000 }), UiAction::ApplyToUi);
}

#[test]
fn snapshot_of_a_monitor_lists_active_interfaces() {
    let mut m = NetworkMonitor::new();
    m.interfaces = vec![
        ("lo0".to_string(), stats(5, 5, 0, 0)),
        ("en0".to_string(), stats(1, 1, 0, 0)),
    ];
    m.total_recv_speed = 6;
    let s = NetworkState::from_monitor(&m);
    assert_eq!(s.recv_speed, 6);
    assert_eq!(s.interfaces.len(), 1);
    assert_eq!(s.interfaces[0].0, "en0");
}

#[test]
fn rows_have_three_tab_separated_columns() {
    let app = AppUsage { name: "Google Chrome Helper (Renderer)".to_string(), recv_speed: 870_000, sent_speed: 0 };
    let row = app_row(&app);
    assert_eq!(row.text, "Google Chrome Helper (R\u{2026}\t850K\t0K");
    assert_eq!(row.columns, vec![(0, 24), (25, 4), (30, 2)]);
    let header = header_row();
    assert_eq!(header.text, "App\tDownload\tUpload");
    assert_eq!(header.columns, vec![(0, 3), (4, 8), (13, 6)]);
    let (text, len) = placeholder_row();
    assert_eq!(text, "  (no active connections)");
    assert_eq!(len, 25);
}

#[test]
fn names_are_cut_with_an_ellipsis() {
    assert_eq!(truncate("short", 24), "short");
    assert_eq!(truncate("abcdef", 4), "abc\u{2026}");
    assert_eq!(truncate("abcdef", 0), "\u{2026}");
    assert_eq!(truncate("abcd", 4), "abcd");
}

#[test]
fn magnitudes_follow_the_unit() {
    assert_eq!(magnitude("0K"), Magnitude::Zero);
    assert_eq!(magnitude("849K"), Magnitude::Kilo);
    assert_eq!(magnitude("12M"), Magnitude::Mega);
    assert_eq!(magnitude("1.00G"), Magnitude::Giga);
    assert_eq!(magnitude("42"), Magnitude::Unitless);
    assert_eq!(magnitude("0.0K"), Magnitude::Kilo);
}

#[test]
fn color_ranges_must_fit_the_row() {
    assert!(range_applies(0, 3, 3));
    assert!(!range_applies(0, 0, 3));
    assert!(!range_applies(2, 2, 3));
    assert!(!range_applies(usize::MAX, 2, 3));
}

#[test]
fn dark_appearances_are_recognised() {
    assert!(appearance_is_dark("NSAppearanceNameDarkAqua"));
    assert!(appearance_is_dark("Dark"));
    assert!(!appearance_is_dark("NSAppearanceNameAqua"));
    assert!(!appearance_is_dark("dark"));
    assert!(!appearance_is_dark(""));
}

#[test]
fn menu_texts_refuse_overflowing_interface_totals() {
    let mut state = AppState::default();
    state.network.interfaces.push(("en0".to_string(), stats(1, 1, u64::MAX, 1)));
    assert!(menu_texts(&state).is_none());
    state.network.interfaces[0].1.total_transmitted = 0;
    let t = menu_texts(&state).unwrap();
    assert_eq!(t.interfaces.len(), 1);
    assert!(t.interfaces[0].starts_with("en0  \u{2193} 1 B/s  \u{2191} 1 B/s   18.4 EB B"));
}

#[test]
fn cloned_states_carry_the_same_figures() {
    let mut s = NetworkState::default();
    s.recv_speed = 3;
    s.interfaces.push(("en0".to_string(), stats(1, 2, 3, 4)));
    let c = s.clone();
    assert_eq!(c.recv_speed, 3);
    assert_eq!(c.interfaces[0].0, "en0");
    assert_eq!(c.interfaces[0].1.total_transmitted, 4);
}
