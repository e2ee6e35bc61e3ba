use netray::app_monitor::{
    parse_nettop, strip_pid, top_apps_from_output, top_apps_from_samples, top_apps_from_text,
    AppUsage,
};

const OUTPUT: &str = "time                             bytes_in bytes_out\n\
10:00:00.000000 Google Chrome H.5231 1000 200\n\
10:00:00.000000 Google Chrome H.5232 50 10\n\
10:00:00.000000 Safari.77 4000 4000\n\
10:00:00.000000 idle.1 5 5\n\
10:00:00.000000 mDNSResponder.383 100 100\n\
time                             bytes_in bytes_out\n\
10:00:01.000000 Google Chrome H.5231 3000 1200\n\
10:00:01.000000 Google Chrome H.5232 1050 20\n\
10:00:01.000000 Safari.77 9000 4100\n\
10:00:01.000000 idle.1 5 5\n\
10:00:01.000000 mDNSResponder.383 700 150\n\
10:00:01.000000 newcomer.9 99999 99999\n";

fn names(apps: &[AppUsage]) -> Vec<String> {
    apps.iter().map(|a| a.name.clone()).collect()
}

#[test]
fn strip_pid_removes_a_trailing_process_id() {
    assert_eq!(strip_pid("Google Chrome H.5231"), "Google Chrome H");
    assert_eq!(strip_pid("com.apple.WebKit"), "com.apple.WebKit");
    assert_eq!(strip_pid("name."), "name.");
    assert_eq!(strip_pid(".123"), ".123");
    assert_eq!(strip_pid("a.b.42"), "a.b");
    assert_eq!(strip_pid("plain"), "plain");
    assert_eq!(strip_pid("x.1a"), "x.1a");
}

#[test]
fn parses_two_samples() {
    let samples = parse_nettop(OUTPUT);
    assert_eq!(samples.len(), 2);
    assert_eq!(samples[0].len(), 5);
    assert_eq!(samples[0][0], ("Google Chrome H.5231".to_string(), 1000, 200));
    assert_eq!(samples[1].len(), 6);
    assert_eq!(samples[1][5], ("newcomer.9".to_string(), 99999, 99999));
}

#[test]
fn rows_before_the_first_header_and_short_rows_are_ignored() {
    let text = "garbage line with many words 1 2\ntime x\n  short row 1\nt a.1 +12 x\r\nt a.1 7 8\n";
    let samples = parse_nettop(text);
    assert_eq!(samples.len(), 1);
    assert_eq!(samples[0], vec![("a.1".to_string(), 7, 8)]);
    let samples = parse_nettop("  time\nt a.1 +12 x\r\n");
    assert_eq!(samples[0], vec![("a.1".to_string(), 12, 0)]);
    assert_eq!(parse_nettop("").len(), 0);
}

#[test]
fn busiest_apps_come_first_with_helpers_summed() {
    let apps = top_apps_from_text(OUTPUT, 10).unwrap();
    assert_eq!(names(&apps), vec!["Safari", "Google Chrome H"]);
    assert_eq!(apps[0].recv_speed, 5000);
    assert_eq!(apps[0].sent_speed, 100);
    assert_eq!(apps[1].recv_speed, 3000);
    assert_eq!(apps[1].sent_speed, 1010);
}

#[test]
fn list_is_cut_to_max() {
    let apps = top_apps_from_text(OUTPUT, 1).unwrap();
    assert_eq!(names(&apps), vec!["Safari"]);
    assert!(top_apps_from_text(OUTPUT, 0).unwrap().is_empty());
}

#[test]
fn fewer_than_two_samples_give_nothing() {
    assert!(top_apps_from_text("time\nt a.1 1 1\n", 5).unwrap().is_empty());
    assert!(top_apps_from_text("", 5).unwrap().is_empty());
}

#[test]
fn overflowing_sums_give_no_answer() {
    let text = format!(
        "time\nt a.1 0 0\nt a.2 0 0\ntime\nt a.1 {} 0\nt a.2 {} 0\n",
        u64::MAX,
        u64::MAX
    );
    assert!(top_apps_from_text(&text, 5).is_none());
}

#[test]
fn raw_output_bytes_are_decoded() {
    let apps = top_apps_from_output(OUTPUT.as_bytes(), 10).unwrap();
    assert_eq!(names(&apps), vec!["Safari", "Google Chrome H"]);
    let mut bytes = b"time\nt caf\xff.1 0 0\ntime\nt caf\xff.1 5000 0\n".to_vec();
    let apps = top_apps_from_output(&bytes, 10).unwrap();
    assert_eq!(names(&apps), vec!["caf\u{fffd}"]);
    bytes.clear();
    assert!(top_apps_from_output(&bytes, 10).unwrap().is_empty());
}

#[test]
fn samples_can_be_ranked_directly() {
    let first = vec![("x.1".to_string(), 0u64, 0u64), ("y.2".to_string(), 0, 0)];
    let last = vec![("y.2".to_string(), 2048u64, 0u64), ("x.1".to_string(), 2048, 0)];
    let apps = top_apps_from_samples(&vec![first, last], 5).unwrap();
    assert_eq!(names(&apps), vec!["y", "x"]);
}
