use netmon::double::Double;
use netmon::procfs::{
    default_interface, detect_interface, first_interface, list_interfaces, minus_or_zero,
    parse_getent, percent_of, plus_wrapping, read_all_counters, read_counters, read_proc_io,
    read_proc_stat, read_proc_status, read_sys_disk_sectors, read_system_cpu,
    read_system_mem_pct, total_mem_kb, CounterError,
};

fn val(d: Double) -> f64 {
    f64::from_bits(d.to_bits())
}

const DEV: &str = "Inter-|   Receive                                                |  Transmit
 face |bytes    packets errs drop fifo frame compressed multicast|bytes    packets errs drop fifo colls carrier compressed
    lo: 1000 10 0 0 0 0 0 0 1000 10 0 0 0 0 0 0
  eth0: 123456 100 0 0 0 0 0 0 654321 90 0 0 0 0 0 0
wlp2s0:77 1 0 0 0 0 0 0 88 1 0 0 0 0 0 0
  odd0: x 1 0 0 0 0 0 0 5 1 0 0 0 0 0 0
 short: 1 2 3
";

const ROUTE: &str = "Iface\tDestination\tGateway \tFlags\tRefCnt\tUse\tMetric\tMask\t\tMTU\tWindow\tIRTT
eth0\t0002A8C0\t00000000\t0001\t0\t0\t100\t00FFFFFF\t0\t0\t0
wlp2s0\t00000000\t0102A8C0\t0003\t0\t0\t600\t00000000\t0\t0\t0
";

#[test]
fn counters_of_one_interface() {
    assert_eq!(read_counters(DEV, "eth0"), Ok((123456, 654321)));
    assert_eq!(read_counters(DEV, "wlp2s0"), Ok((77, 88)));
    assert_eq!(read_counters(DEV, "odd0"), Err(CounterError::BadNumber));
    assert_eq!(read_counters(DEV, "short"), Err(CounterError::NoInterface));
    assert_eq!(read_counters(DEV, "eth1"), Err(CounterError::NoInterface));
    assert_eq!(read_counters("", "eth0"), Err(CounterError::NoInterface));
}

#[test]
fn counters_of_all_interfaces() {
    let all = read_all_counters(DEV);
    assert_eq!(all.get(&"eth0".to_string()), Some(&(123456, 654321)));
    assert_eq!(all.get(&"lo".to_string()), Some(&(1000, 1000)));
    assert_eq!(all.get(&"odd0".to_string()), Some(&(0, 5)));
    assert!(!all.has(&"short".to_string()));
    assert!(!all.has(&"face |bytes".to_string()));
}

#[test]
fn interfaces_are_listed_without_loopback() {
    let names = list_interfaces(DEV).unwrap();
    assert_eq!(names, vec!["eth0", "wlp2s0", "odd0", "short"]);
    assert!(list_interfaces("a\nb\n lo: 1\n").is_none());
    assert!(list_interfaces("a\nb\n : 1\n").is_none());
    assert_eq!(first_interface(DEV).as_deref(), Some("eth0"));
    assert_eq!(first_interface("a\nb\n lo: 1\n"), None);
}

#[test]
fn the_default_route_names_the_interface() {
    assert_eq!(default_interface(ROUTE).as_deref(), Some("wlp2s0"));
    assert_eq!(detect_interface(ROUTE, Some(DEV)).as_deref(), Some("wlp2s0"));
    let none = "Iface\nlo 00000001 0 0 0 0 0 000000FF\n";
    assert_eq!(default_interface(none), None);
    assert_eq!(detect_interface(none, Some(DEV)).as_deref(), Some("eth0"));
    assert_eq!(detect_interface(none, None), None);
    assert_eq!(detect_interface("", Some("a\nb\n lo: 1\n")), None);
}

#[test]
fn processor_ticks() {
    let stat = "cpu  100 5 50 1000 20 1 2 3 0 0\ncpu0 1 1 1 1 1\nintr 5\n";
    assert_eq!(read_system_cpu(stat), Some((161, 1181)));
    assert_eq!(read_system_cpu("cpu  1 2 3 4\n"), Some((6, 10)));
    assert_eq!(read_system_cpu("cpu  1 2 3\n"), None);
    assert_eq!(read_system_cpu("cpu0 1 2 3 4\n"), None);
    // A word that is no number is passed over.
    assert_eq!(read_system_cpu("cpu  1 x 2 3 4 5\n"), Some((6, 15)));
}

#[test]
fn memory_in_percent() {
    let m = "MemTotal:       8000000 kB\nMemFree:         100000 kB\nMemAvailable:   2000000 kB\n";
    assert_eq!(val(read_system_mem_pct(m).unwrap()), (6000000.0f64 / 8000000.0) * 100.0);
    let free = "MemTotal: 1000 kB\nMemFree: 300 kB\n";
    assert_eq!(val(read_system_mem_pct(free).unwrap()), (700.0f64 / 1000.0) * 100.0);
    assert!(read_system_mem_pct("MemFree: 300 kB\n").is_none());
    assert!(read_system_mem_pct("MemTotal: 0 kB\nMemFree: 300 kB\n").is_none());
    assert!(read_system_mem_pct("MemTotal: 1000 kB\n").is_none());
    assert_eq!(total_mem_kb(m), 8000000);
    assert_eq!(total_mem_kb("MemTotal: x kB\nMemTotal: 7 kB\n"), 7);
    assert_eq!(total_mem_kb("Mem: 1\n"), 0);
}

#[test]
fn a_part_is_at_most_a_hundred_percent() {
    for whole in [1u64, 3, 7, 1000, 8000000, 9007199254740993, u64::MAX] {
        for part in [0, whole / 3, whole - 1, whole] {
            let p = val(percent_of(part, whole));
            assert_eq!(p, (part as f64 / whole as f64) * 100.0);
            assert!(p <= 100.0);
        }
    }
}

#[test]
fn sectors_of_whole_disks() {
    let d = "   8       0 sda 100 0 1000 5 50 0 2000 6 0 7 8
   8       1 sda1 90 0 900 5 40 0 1900 6 0 7 8
 259       0 nvme0n1 1 0 11 5 1 0 22 6 0 7 8
   7       0 loop0 1 2
";
    let both = vec!["sda".to_string(), "nvme0n1".to_string()];
    assert_eq!(read_sys_disk_sectors(d, &both), (1011, 2022));
    assert_eq!(read_sys_disk_sectors(d, &Vec::new()), (1911, 3922));
    assert_eq!(read_sys_disk_sectors(d, &vec!["sdb".to_string()]), (0, 0));
}

#[test]
fn process_files() {
    let stat = "26951 (node (a) b) S 1 2 3 4 5 6 7 8 9 10 4211 37 0 0 20 0";
    assert_eq!(read_proc_stat(stat), Some((4211, 37)));
    assert_eq!(read_proc_stat("1 (x) S 1 2 3"), None);
    assert_eq!(read_proc_stat("no name"), None);
    let status = "Name:\tnode\nUid:\t1000\t1000\t1000\t1000\nVmRSS:\t  40000 kB\n";
    assert_eq!(read_proc_status(status), Some((1000, 40000)));
    assert_eq!(read_proc_status("Name:\tkthread\nUid:\t0\t0\t0\t0\n"), None);
    let io = "rchar: 1\nwchar: 2\nread_bytes: 4096\nwrite_bytes: 8192\ncancelled_write_bytes: 0\n";
    assert_eq!(read_proc_io(io), Some((4096, 8192)));
    assert_eq!(read_proc_io("read_bytes: 4096\n"), None);
}

#[test]
fn getent_user_parses_name() {
    let name = parse_getent("dj:x:1000:1000:DJ:/home/dj:/bin/bash\n").unwrap();
    assert!(!name.is_empty());
    assert!(!name.contains(':'));
    assert_eq!(name, "dj");
}

#[test]
fn getent_user_unknown_uid_is_none() {
    assert!(parse_getent("").is_none());
    assert!(parse_getent("\n").is_none());
    assert!(parse_getent("  :x:1:1::/:/bin/sh\n").is_none());
}

#[test]
fn sums_wrap_and_differences_stop_at_zero() {
    assert_eq!(plus_wrapping(u64::MAX, 2), 1);
    assert_eq!(plus_wrapping(40, 2), 42);
    assert_eq!(minus_or_zero(5, 7), 0);
    assert_eq!(minus_or_zero(7, 5), 2);
}
