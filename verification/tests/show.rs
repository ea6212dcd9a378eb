use netmon::double::Double;
use netmon::show::{fmt_time_plus, format_speed, one_decimal, proc_sort_label, shanghai_hms};

fn num(x: f64) -> Double {
    Double::from_bits(x.to_bits()).unwrap()
}

fn speed(bytes_per_sec: u64) -> String {
    let units = ["B/s", "KB/s", "MB/s", "GB/s", "TB/s"];
    let mut value = bytes_per_sec as f64;
    let mut i = 0;
    while value >= 1024.0 && i < units.len() - 1 {
        value /= 1024.0;
        i += 1;
    }
    if i == 0 {
        format!("{:>6.0} {}", value, units[i])
    } else {
        format!("{:>6.1} {}", value, units[i])
    }
}

#[test]
fn speeds_use_the_largest_unit() {
    assert_eq!(format_speed(0), "     0 B/s");
    assert_eq!(format_speed(1023), "  1023 B/s");
    assert_eq!(format_speed(1024), "   1.0 KB/s");
    assert_eq!(format_speed(6246), "   6.1 KB/s");
    assert_eq!(format_speed(1048575), "1024.0 KB/s");
    assert_eq!(format_speed(1258291), "   1.2 MB/s");
    assert_eq!(format_speed(1 << 40), "   1.0 TB/s");
    assert_eq!(format_speed(u64::MAX), "16777216.0 TB/s");
}

#[test]
fn speeds_match_the_formatter() {
    let mut s: u64 = 1;
    for i in 0..3000u64 {
        s = s.wrapping_mul(6364136223846793005).wrapping_add(1442695040888963407);
        let n = s >> (i % 64);
        assert_eq!(format_speed(n), speed(n), "{}", n);
    }
    // Ties between two tenths.
    for k in 0..4096u64 {
        let n = 1024 + k * 256;
        assert_eq!(format_speed(n), speed(n), "{}", n);
        assert_eq!(format_speed(n * 1024 + 1), speed(n * 1024 + 1));
    }
}

#[test]
fn numbers_with_one_place_match_the_formatter() {
    for x in [
        0.0,
        0.04,
        0.05,
        0.25,
        0.35,
        0.75,
        23.44,
        41.8,
        99.95,
        100.0,
        1234567.25,
        9007199254740991.0,
        9007199254740992.0,
        1e22,
        1.7976931348623157e308,
        5e-324,
        f64::INFINITY,
    ] {
        assert_eq!(one_decimal(num(x)), format!("{:.1}", x));
    }
    let mut s: u64 = 7;
    for _ in 0..400 {
        s = s.wrapping_mul(6364136223846793005).wrapping_add(1442695040888963407);
        let x = f64::from_bits((s >> 1) % 0x7FF0_0000_0000_0000);
        assert_eq!(one_decimal(num(x)), format!("{:.1}", x));
        let y = (s >> 40) as f64 / 64.0;
        assert_eq!(one_decimal(num(y)), format!("{:.1}", y));
    }
}

#[test]
fn processor_time_below_and_above_an_hour() {
    assert_eq!(fmt_time_plus(num(0.0)), "00:00.00");
    assert_eq!(fmt_time_plus(num(131.48)), "02:11.48");
    assert_eq!(fmt_time_plus(num(942.07)), "15:42.07");
    assert_eq!(fmt_time_plus(num(3.9)), "00:03.90");
    assert_eq!(fmt_time_plus(num(3599.994)), "59:59.99");
    assert_eq!(fmt_time_plus(num(3599.996)), "01:00:00");
    assert_eq!(fmt_time_plus(num(3661.5)), "01:01:01");
    assert_eq!(fmt_time_plus(num(360000.0)), "100:00:00");
}

#[test]
fn shanghai_is_eight_hours_ahead() {
    assert_eq!(shanghai_hms(0), (8, 0, 0));
    assert_eq!(shanghai_hms(1_700_000_000), (6, 13, 20));
    assert_eq!(shanghai_hms(57599), (23, 59, 59));
    assert_eq!(shanghai_hms(57600), (0, 0, 0));
    for t in [0u64, 1, 59, 3600, 123456789, 1_700_000_000] {
        assert_eq!(shanghai_hms(t), shanghai_hms(t + 86400));
        let (h, m, s) = shanghai_hms(t);
        assert_eq!((h * 3600 + m * 60 + s) as u64, (t + 8 * 3600) % 86400);
    }
}

#[test]
fn processes_are_labelled_with_their_number() {
    assert_eq!(proc_sort_label("node", Some(26951)), "node(26951)");
    assert_eq!(proc_sort_label("-", None), "-");
}
