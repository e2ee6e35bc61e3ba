use netray::speed::{format_speed_bytes, pad_title};

/// The figure computed with `f64` arithmetic and `{:.N}` formatting.
fn float_figure(bps: u64) -> String {
    let k = bps as f64 / 1024.0;
    if k < 1.0 {
        "0K".to_string()
    } else if k < 10.0 {
        format!("{:.1}K", k)
    } else if k < 1024.0 {
        format!("{:.0}K", k)
    } else if k < 1024.0 * 10.0 {
        format!("{:.1}M", k / 1024.0)
    } else if k < 1024.0 * 1024.0 {
        format!("{:.0}M", k / 1024.0)
    } else {
        format!("{:.2}G", k / 1024.0 / 1024.0)
    }
}

#[test]
fn figures_agree_with_float_formatting_below_two_megabytes() {
    for bps in 0..(2u64 << 20) {
        assert_eq!(format_speed_bytes(bps), float_figure(bps), "bps = {}", bps);
    }
}

#[test]
fn figures_agree_with_float_formatting_on_large_values() {
    let mut samples: Vec<u64> = Vec::new();
    for shift in 20..64 {
        let base = 1u64 << shift;
        for delta in 0..2000u64 {
            samples.push(base.wrapping_add(delta));
            samples.push(base.wrapping_sub(delta));
            samples.push(base.wrapping_add(delta.wrapping_mul(1_048_573)));
        }
    }
    for top in 0..5000u64 {
        samples.push(u64::MAX - top);
    }
    let mut x: u64 = 0x9E37_79B9_7F4A_7C15;
    for _ in 0..300_000 {
        x ^= x << 13;
        x ^= x >> 7;
        x ^= x << 17;
        samples.push(x >> (x % 64));
    }
    for bps in samples {
        let float = float_figure(bps);
        let figure = format_speed_bytes(bps);
        if float.chars().count() <= 5 {
            assert_eq!(figure, float, "bps = {}", bps);
        } else {
            assert!(bps >= 10 * 1_073_741_824 - 10 * 1_073_741_824 / 2000, "bps = {}", bps);
            assert!(figure.chars().count() <= 5, "bps = {}: {}", bps, figure);
        }
    }
}

#[test]
fn figures_on_chosen_values() {
    assert_eq!(format_speed_bytes(0), "0K");
    assert_eq!(format_speed_bytes(1023), "0K");
    assert_eq!(format_speed_bytes(1024), "1.0K");
    assert_eq!(format_speed_bytes(4096), "4.0K");
    assert_eq!(format_speed_bytes(10240), "10K");
    assert_eq!(format_speed_bytes(1_048_575), "1024K");
    assert_eq!(format_speed_bytes(1_048_576), "1.0M");
    assert_eq!(format_speed_bytes(12 * 1_048_576), "12M");
    assert_eq!(format_speed_bytes(1_073_741_824), "1.00G");
    assert_eq!(format_speed_bytes(10_732_049_530), "9.99G");
    assert_eq!(format_speed_bytes(10_732_049_531), "10G");
    assert_eq!(format_speed_bytes(11 * 1_073_741_824), "11G");
    assert_eq!(format_speed_bytes(1_099_511_627_775), "1024G");
    assert_eq!(format_speed_bytes(1_099_511_627_776), "1.0T");
    assert_eq!(format_speed_bytes(15 * 1_099_511_627_776), "15T");
    assert_eq!(format_speed_bytes(1_125_899_906_842_624), "1.0P");
    assert_eq!(format_speed_bytes(1_152_921_504_606_846_976), "1.0E");
    assert_eq!(format_speed_bytes(u64::MAX), "16E");
}

#[test]
fn title_padding_reaches_nine_columns() {
    assert_eq!(pad_title("\u{2191} 4.0K/s"), "\u{2191} 4.0K/s\u{2007}");
    assert_eq!(pad_title("\u{2193} 0K/s"), "\u{2193} 0K/s\u{2007}\u{2007}\u{2007}");
    assert_eq!(pad_title("\u{2191} 1.00G/s"), "\u{2191} 1.00G/s");
    assert_eq!(pad_title("\u{2191} 11.00G/s"), "\u{2191} 11.00G/s");
    for bps in [0u64, 10_240, 10_732_049_531, 1 << 40, 1 << 50, 1 << 60, u64::MAX] {
        let line = pad_title(&format!("\u{2191} {}/s", format_speed_bytes(bps)));
        assert_eq!(line.chars().count(), 9, "bps = {}", bps);
    }
    assert_eq!(pad_title("").chars().count(), 9);
}

/// The value a figure reads, in hundredths of a byte a second.
fn figure_reading(s: &str) -> u128 {
    let (number, letter) = s.split_at(s.len() - 1);
    let unit: u128 = match letter {
        "K" => 1 << 10,
        "M" => 1 << 20,
        "G" => 1 << 30,
        "T" => 1 << 40,
        "P" => 1 << 50,
        "E" => 1 << 60,
        _ => panic!("unit letter {}", letter),
    };
    let hundredths: u128 = match number.split_once('.') {
        Some((whole, frac)) if frac.len() == 1 => whole.parse::<u128>().unwrap() * 100 + frac.parse::<u128>().unwrap() * 10,
        Some((whole, frac)) => whole.parse::<u128>().unwrap() * 100 + frac.parse::<u128>().unwrap(),
        None => number.parse::<u128>().unwrap() * 100,
    };
    hundredths * unit
}

fn sample_speeds() -> Vec<u64> {
    let mut v = vec![1024, 1025, 10239, 10240, 1_048_575, 1_048_576, 10_732_049_530, 10_732_049_531, 10_737_418_240, u64::MAX];
    let mut x: u64 = 0x9E37_79B9_7F4A_7C15;
    for _ in 0..5_000 {
        x ^= x << 13;
        x ^= x >> 7;
        x ^= x << 17;
        v.push((x >> (x % 54)).max(1024));
    }
    v.sort();
    v
}

#[test]
fn figures_read_within_five_percent() {
    for bps in sample_speeds() {
        let read = figure_reading(&format_speed_bytes(bps));
        let b = bps as u128;
        assert!(95 * b <= read && read <= 105 * b, "{} reads {}", bps, read);
    }
    assert_eq!(figure_reading("4.0K"), 409_600);
    assert_eq!(figure_reading("12M"), 1_258_291_200);
}

#[test]
fn displayed_speed_never_goes_down() {
    let speeds = sample_speeds();
    for w in speeds.windows(2) {
        let (a, b) = (format_speed_bytes(w[0]), format_speed_bytes(w[1]));
        assert!(figure_reading(&a) <= figure_reading(&b), "{} ({}) then {} ({})", w[0], a, w[1], b);
    }
    assert_eq!(format_speed_bytes(1023), "0K");
}
