use netmon::conns::ConnMonitor;
use netmon::double::Double;
use netmon::history::MAX_HISTORY;
use netmon::keys::{Key, Outcome};
use netmon::procfs::read_all_counters;
use netmon::rows::SortKey;
use netmon::state::{interface_choices, tick_due, wait_time, App};
use netmon::table::Table;

const SEC: u64 = 1_000_000_000;

fn num(x: f64) -> Double {
    Double::from_bits(x.to_bits()).unwrap()
}

fn val(d: Double) -> f64 {
    f64::from_bits(d.to_bits())
}

fn app_with(names: &[&str], now: u64) -> App {
    let ifaces: Vec<String> = names.iter().map(|n| n.to_string()).collect();
    App::new(ifaces[0].clone(), ifaces, 0, ConnMonitor::new(None, None), now)
}

fn counters(list: &[(&str, u64, u64)]) -> Table<String, (u64, u64)> {
    let mut t = Table::new();
    for (n, rx, tx) in list {
        t.insert(n.to_string(), (*rx, *tx));
    }
    t
}

fn dev(list: &[(&str, u64, u64)]) -> String {
    let mut s = "a\nb\n".to_string();
    for (n, rx, tx) in list {
        s.push_str(&format!("{}: {} 0 0 0 0 0 0 0 {} 0\n", n, rx, tx));
    }
    s
}

#[test]
fn the_wanted_interface_is_always_a_choice() {
    let list = || Some(vec!["eth0".to_string(), "wlan0".to_string()]);
    assert_eq!(
        interface_choices(list(), &"wlan0".to_string()),
        (vec!["eth0".to_string(), "wlan0".to_string()], 1),
    );
    assert_eq!(
        interface_choices(list(), &"lo".to_string()),
        (vec!["lo".to_string(), "eth0".to_string(), "wlan0".to_string()], 0),
    );
    assert_eq!(interface_choices(None, &"lo".to_string()), (vec!["lo".to_string()], 0));
}

#[test]
fn auto_switches_to_busiest_interface() {
    let now = 100 * SEC;
    let mut app = app_with(&["eth0", "eth1"], 0);
    app.auto_iface = true;
    // Allow an immediate switch.
    app.last_auto_switch = now - 10 * SEC;

    // eth1 accumulated far more traffic over the 1s window.
    app.auto_window_bytes.insert("eth0".to_string(), 0);
    app.auto_window_bytes.insert("eth1".to_string(), 100_000);
    app.current_rx = 0;
    app.current_tx = 0;

    assert!(app.auto_switch_if_needed(now));
    assert_eq!(app.iface, "eth1");
    assert_eq!(app.iface_idx, 1);

    // A tiny margin (1000 bytes in 1s) must NOT trigger a switch -> no thrashing.
    let mut app2 = app_with(&["eth0", "eth1"], 0);
    app2.auto_iface = true;
    app2.last_auto_switch = now - 10 * SEC;
    app2.auto_window_bytes.insert("eth0".to_string(), 0);
    app2.auto_window_bytes.insert("eth1".to_string(), 1000);
    assert!(!app2.auto_switch_if_needed(now));
    assert_eq!(app2.iface, "eth0", "should not thrash on a tiny margin");

    // Auto off -> never switches.
    let mut app3 = app2;
    app3.auto_iface = false;
    app3.auto_window_bytes.insert("eth1".to_string(), 100_000);
    assert!(!app3.auto_switch_if_needed(now));
    assert_eq!(app3.iface, "eth0");
}

#[test]
fn switches_wait_a_second_and_need_more_than_the_margin() {
    let mut app = app_with(&["eth0", "eth1"], 0);
    app.auto_window_bytes.insert("eth0".to_string(), 1000);
    app.auto_window_bytes.insert("eth1".to_string(), 1000 + 4096);
    assert!(!app.auto_switch_if_needed(10 * SEC));
    app.auto_window_bytes.insert("eth1".to_string(), 1000 + 4097);
    assert!(!app.auto_switch_if_needed(SEC));
    assert!(app.auto_switch_if_needed(SEC + 1));
    assert_eq!(app.last_auto_switch, SEC + 1);
    // No way back within the next second.
    app.auto_window_bytes.insert("eth0".to_string(), 1_000_000);
    assert!(!app.auto_switch_if_needed(2 * SEC + 1));
    assert!(app.auto_switch_if_needed(2 * SEC + 2));
    assert_eq!(app.iface, "eth0");
}

#[test]
fn ties_keep_the_active_interface() {
    let mut app = app_with(&["eth0", "eth1", "eth2"], 0);
    assert_eq!(app.busiest_iface(), None);
    app.auto_window_bytes.insert("eth1".to_string(), 7);
    app.auto_window_bytes.insert("eth2".to_string(), 7);
    assert_eq!(app.busiest_iface().as_deref(), Some("eth1"));
    app.iface = "eth2".to_string();
    app.iface_idx = 2;
    assert_eq!(app.busiest_iface().as_deref(), Some("eth2"));
    app.auto_window_bytes.insert("eth0".to_string(), 8);
    assert_eq!(app.busiest_iface().as_deref(), Some("eth0"));
}

#[test]
fn speed_is_the_gain_over_the_elapsed_time() {
    let mut app = app_with(&["eth0", "eth1"], 0);
    app.prime(1000, 500, 0);
    // The first sample has no baseline.
    assert!(!app.tick_traffic(&counters(&[("eth0", 1000, 500), ("eth1", 1, 1)]), SEC / 2));
    assert_eq!((app.current_rx, app.current_tx), (0, 0));
    let c = counters(&[("eth0", 1000, 500), ("eth1", 1, 1)]);
    assert!(app.tick_system(&c, None, None, None, SEC / 2));
    assert_eq!(app.rx_history.len(), 1);
    let c = counters(&[("eth0", 2001, 501), ("eth1", 11, 1)]);
    assert!(!app.tick_traffic(&c, SEC));
    assert_eq!((app.current_rx, app.current_tx), (2002, 2));
    assert_eq!((app.prev_rx_bytes, app.prev_tx_bytes), (1000, 500));
    let _ = app.tick_system(&c, None, None, None, SEC);
    assert_eq!(app.peak_speed, 2002);
    assert_eq!((app.prev_rx_bytes, app.prev_tx_bytes), (2001, 501));
    assert_eq!(app.rx_history[1], 2002);
    assert_eq!(app.tx_history[1], 2);
    // A second sample at the same time changes no speed.
    let c = counters(&[("eth0", 9001, 501)]);
    let _ = app.tick_traffic(&c, SEC);
    assert_eq!(app.current_rx, 2002);
    // A counter that falls counts as no traffic.
    let c = counters(&[("eth0", 1, 501)]);
    let _ = app.tick_traffic(&c, SEC + SEC / 2);
    assert_eq!(app.current_rx, 0);
}

#[test]
fn a_full_window_moves_to_the_busy_interface() {
    let mut app = app_with(&["eth0", "eth1"], 0);
    app.prime(100, 100, 0);
    let c = counters(&[("eth0", 100, 100), ("eth1", 100, 100)]);
    assert!(!app.tick_traffic(&c, SEC / 2));
    let _ = app.tick_system(&c, Some((5, 10)), Some(num(50.0)), Some((3, 3)), SEC / 2);
    let c = counters(&[("eth0", 200, 100), ("eth1", 100_100, 100)]);
    // Exactly one second after the start is not yet more than one second.
    assert!(!app.tick_traffic(&c, SEC));
    let _ = app.tick_system(&c, None, None, None, SEC);
    assert_eq!(app.auto_window_start, SEC);
    assert_eq!(app.auto_window_bytes.get(&"eth1".to_string()), Some(&0));
    let c = counters(&[("eth0", 200, 100), ("eth1", 200_100, 100)]);
    assert!(!app.tick_traffic(&c, SEC + SEC / 2));
    let c = counters(&[("eth0", 300, 100), ("eth1", 300_100, 100)]);
    assert!(app.tick_traffic(&c, 2 * SEC));
    assert_eq!(app.iface, "eth1");
    assert_eq!(app.rx_history.len(), 0);
    app.rebaseline(Some(&dev(&[("eth0", 300, 100), ("eth1", 300_200, 110)])));
    assert_eq!((app.prev_rx_bytes, app.prev_tx_bytes), (300_200, 110));
    let _ = app.tick_system(&c, None, None, None, 2 * SEC);
    assert_eq!(app.rx_history.len(), 1);
    assert_eq!(app.rx_history[0], 0);
    // The next sample is measured from the counters read at the switch.
    let c = counters(&[("eth1", 300_700, 110)]);
    let _ = app.tick_traffic(&c, 2 * SEC + SEC / 2);
    assert_eq!(app.current_rx, 1000);
}

#[test]
fn a_baseline_that_cannot_be_read_is_none() {
    let mut app = app_with(&["eth0"], 0);
    app.prime(5, 6, 0);
    app.rebaseline(None);
    assert_eq!((app.prev_rx_bytes, app.prev_tx_bytes), (0, 0));
    app.prime(5, 6, 0);
    app.rebaseline(Some(&dev(&[("eth1", 1, 1)])));
    assert_eq!(app.prev_counters.get(&"eth0".to_string()), None);
    assert_eq!((app.prev_rx_bytes, app.prev_tx_bytes), (0, 0));
    let all = read_all_counters(&dev(&[("eth1", 1, 1)]));
    assert_eq!(all.get(&"eth1".to_string()), Some(&(1, 1)));
}

#[test]
fn processors_memory_and_disks_are_recorded() {
    let mut app = app_with(&["eth0"], 0);
    let c = counters(&[]);
    let _ = app.tick_system(&c, Some((10, 100)), Some(num(41.8)), Some((100, 200)), SEC);
    assert_eq!(val(app.sys_cpu_history[0]), 0.0);
    assert_eq!(val(app.sys_mem_history[0]), 41.8);
    assert_eq!(val(app.sys_disk_read_history[0]), 0.0);
    let _ = app.tick_system(&c, Some((35, 200)), Some(num(141.8)), Some((110, 203)), SEC + SEC / 2);
    assert_eq!(val(app.sys_cpu_history[1]), 25.0);
    assert_eq!(val(app.sys_mem_history[1]), 100.0);
    assert_eq!(val(app.sys_disk_read_history[1]), 10.0 * 512.0 / 0.5);
    assert_eq!(val(app.sys_disk_write_history[1]), 3.0 * 512.0 / 0.5);
    // Readings that fail: nothing for processors and disks, zero for memory.
    let _ = app.tick_system(&c, None, None, None, 2 * SEC);
    assert_eq!(app.sys_cpu_history.len(), 2);
    assert_eq!(app.sys_mem_history.len(), 3);
    assert_eq!(val(app.sys_mem_history[2]), 0.0);
    assert_eq!(app.sys_disk_read_history.len(), 2);
    // Counters that start over, and counters that stand still.
    let _ = app.tick_system(&c, Some((35, 200)), None, Some((1, 1)), 3 * SEC);
    assert_eq!(val(app.sys_cpu_history[2]), 0.0);
    assert_eq!(val(app.sys_disk_read_history[2]), 0.0);
}

#[test]
fn connections_are_due_every_half_second() {
    let mut app = app_with(&["eth0"], 0);
    let c = counters(&[]);
    assert!(!app.tick_system(&c, None, None, None, SEC / 2 - 1));
    assert!(app.tick_system(&c, None, None, None, SEC / 2));
    assert!(!app.tick_system(&c, None, None, None, SEC - 1));
    assert!(app.tick_system(&c, None, None, None, SEC));
}

#[test]
fn histories_keep_one_day() {
    let mut app = app_with(&["eth0"], 0);
    for i in 0..MAX_HISTORY as u64 {
        app.rx_history.push_back(i);
        app.tx_history.push_back(i);
    }
    app.current_rx = 77;
    let _ = app.tick_system(&counters(&[]), None, None, None, SEC);
    assert_eq!(app.rx_history.len(), MAX_HISTORY);
    assert_eq!(app.rx_history[0], 1);
    assert_eq!(app.rx_history[MAX_HISTORY - 1], 77);
    assert_eq!(app.tx_history.len(), MAX_HISTORY);
}

#[test]
fn the_next_sample_is_due_after_half_a_second() {
    assert_eq!(wait_time(10, 10), SEC / 2);
    assert_eq!(wait_time(0, SEC / 4), SEC / 4);
    assert_eq!(wait_time(0, SEC), 0);
    assert!(!tick_due(0, SEC / 2 - 1));
    assert!(tick_due(0, SEC / 2));
}

#[test]
fn next_and_previous_go_around_the_list() {
    let mut app = app_with(&["a", "b", "c"], 0);
    app.rx_history.push_back(5);
    app.peak_speed = 9;
    assert_eq!(app.handle_key(Key::Char('n'), SEC), Outcome::Rebaseline);
    assert_eq!((app.iface.as_str(), app.iface_idx), ("b", 1));
    assert!(!app.auto_iface);
    assert_eq!(app.rx_history.len(), 0);
    assert_eq!(app.peak_speed, 1);
    assert_eq!(app.handle_key(Key::Char('P'), SEC), Outcome::Rebaseline);
    assert_eq!(app.iface, "a");
    assert_eq!(app.handle_key(Key::BackTab, SEC), Outcome::Rebaseline);
    assert_eq!(app.iface, "c");
    assert_eq!(app.handle_key(Key::Tab, SEC), Outcome::Rebaseline);
    assert_eq!(app.iface, "a");
    let mut none = app_with(&["a"], 0);
    none.ifaces.clear();
    assert_eq!(none.handle_key(Key::Char('n'), SEC), Outcome::Continue);
    assert_eq!(none.handle_key(Key::Char('p'), SEC), Outcome::Continue);
    assert!(!none.switch_iface(3, SEC));
}

#[test]
fn keys_go_to_the_filter_while_it_is_typed() {
    let mut app = app_with(&["a"], 0);
    assert_eq!(app.handle_key(Key::Char('/'), 1), Outcome::Continue);
    assert!(app.filter_mode);
    for c in "qé".chars() {
        assert_eq!(app.handle_key(Key::Char(c), 1), Outcome::Again);
    }
    assert_eq!(app.filter, "qé");
    assert_eq!(app.handle_key(Key::Char('x'), 1), Outcome::Again);
    assert_eq!(app.handle_key(Key::Backspace, 1), Outcome::Again);
    assert_eq!(app.filter, "qé");
    let _ = app.handle_key(Key::Backspace, 1);
    let _ = app.handle_key(Key::Backspace, 1);
    let _ = app.handle_key(Key::Backspace, 1);
    assert_eq!(app.filter, "");
    let _ = app.handle_key(Key::Up, 1);
    let _ = app.handle_key(Key::Char('z'), 1);
    assert_eq!(app.handle_key(Key::Esc, 1), Outcome::Again);
    assert!(!app.filter_mode);
    assert_eq!(app.filter, "z");
    assert_eq!(app.handle_key(Key::Esc, 1), Outcome::Quit);
    assert_eq!(app.handle_key(Key::Char('Q'), 1), Outcome::Quit);
}

#[test]
fn reset_clears_histories_connections_and_filter() {
    let mut app = app_with(&["a", "b"], 0);
    app.rx_history.push_back(5);
    app.sys_cpu_history.push_back(num(1.0));
    app.prev_cpu_total = 7;
    app.current_rx = 3;
    app.peak_speed = 99;
    app.filter = "f".to_string();
    app.conns.scroll = 4;
    assert_eq!(app.handle_key(Key::Char('r'), 5), Outcome::Continue);
    assert_eq!(app.rx_history.len(), 0);
    assert_eq!(app.sys_cpu_history.len(), 0);
    assert_eq!(app.prev_cpu_total, 0);
    assert_eq!(app.prev_cpu_time, 5);
    assert_eq!(app.peak_speed, 1);
    assert_eq!(app.filter, "");
    assert_eq!(app.conns.scroll, 0);
    assert_eq!(app.current_rx, 3);
    assert_eq!(app.iface, "a");
}

#[test]
fn toggles_and_sort_keys() {
    let mut app = app_with(&["a"], 0);
    app.conns.scroll = 9;
    let _ = app.handle_key(Key::Char('c'), 1);
    assert!(app.focus_conns);
    assert_eq!(app.conns.scroll, 0);
    let _ = app.handle_key(Key::Char('C'), 1);
    assert!(!app.focus_conns);
    let _ = app.handle_key(Key::Char('i'), 7);
    assert!(!app.auto_iface);
    assert_eq!(app.last_auto_switch, 7);
    let _ = app.handle_key(Key::Char('I'), 8);
    assert!(app.auto_iface);
    let _ = app.handle_key(Key::Char('o'), 1);
    assert_eq!(app.sort_key, SortKey::Proc);
    let _ = app.handle_key(Key::Char('O'), 1);
    assert!(app.sort_asc);
    let _ = app.handle_key(Key::Char('o'), 1);
    assert_eq!((app.sort_key, app.sort_asc), (SortKey::Proto, false));
    let _ = app.handle_key(Key::Char('a'), 1);
    assert!(app.aggregate);
    assert_eq!(app.sort_key, SortKey::Throughput);
    for _ in 0..11 {
        let _ = app.handle_key(Key::Char('o'), 1);
    }
    assert_eq!(app.sort_key, SortKey::User);
    let _ = app.handle_key(Key::Other, 1);
    let _ = app.handle_key(Key::Char('x'), 1);
    let _ = app.handle_key(Key::Enter, 1);
    assert_eq!(app.sort_key, SortKey::User);
}

#[test]
fn scroll_keys() {
    let mut app = app_with(&["a"], 0);
    let _ = app.handle_key(Key::Down, 1);
    let _ = app.handle_key(Key::Char('j'), 1);
    let _ = app.handle_key(Key::Char('k'), 1);
    assert_eq!(app.conns.scroll, 1);
    let _ = app.handle_key(Key::PageDown, 1);
    assert_eq!(app.conns.scroll, 11);
    let _ = app.handle_key(Key::PageUp, 1);
    let _ = app.handle_key(Key::Up, 1);
    assert_eq!(app.conns.scroll, 0);
    let _ = app.handle_key(Key::End, 1);
    assert_eq!(app.conns.scroll, usize::MAX);
    let _ = app.handle_key(Key::Home, 1);
    assert_eq!(app.conns.scroll, 0);
}

#[test]
fn clicks_on_titles_sort() {
    let mut app = app_with(&["a"], 0);
    app.header_y = 3;
    app.col_hit = vec![(0, 10, SortKey::Proc), (10, 14, SortKey::Rx)];
    app.conns.scroll = 5;
    app.handle_click(12, 3);
    assert_eq!((app.sort_key, app.sort_asc, app.conns.scroll), (SortKey::Rx, false, 0));
    app.handle_click(10, 3);
    assert_eq!((app.sort_key, app.sort_asc), (SortKey::Rx, true));
    app.handle_click(9, 3);
    assert_eq!((app.sort_key, app.sort_asc), (SortKey::Proc, false));
    app.handle_click(14, 3);
    app.handle_click(12, 4);
    app.filter_mode = true;
    app.handle_click(12, 3);
    assert_eq!((app.sort_key, app.sort_asc), (SortKey::Proc, false));
}

#[test]
fn a_counter_of_zero_is_a_baseline() {
    let mut app = app_with(&["eth0"], 0);
    let _ = app.tick_traffic(&counters(&[("eth0", 1000, 0)]), SEC);
    let _ = app.tick_system(&counters(&[("eth0", 1000, 0)]), None, None, None, SEC);
    assert_eq!((app.current_rx, app.current_tx), (0, 0));
    let _ = app.tick_traffic(&counters(&[("eth0", 3000, 500)]), 2 * SEC);
    assert_eq!((app.current_rx, app.current_tx), (2000, 500));
    assert_eq!(app.auto_window_bytes.get(&"eth0".to_string()), Some(&0));

    // Nothing received so far.
    let mut app = app_with(&["eth0"], 0);
    app.auto_window_start = 10 * SEC;
    app.prev_counters.insert("eth0".to_string(), (0, 70));
    let _ = app.tick_traffic(&counters(&[("eth0", 40, 100)]), SEC / 2);
    assert_eq!((app.current_rx, app.current_tx), (80, 60));
    assert_eq!(app.auto_window_bytes.get(&"eth0".to_string()), Some(&70));

    // Neither received nor sent so far.
    let mut app = app_with(&["eth0"], 0);
    app.auto_window_start = 10 * SEC;
    let _ = app.tick_traffic(&counters(&[("eth0", 0, 0)]), SEC / 4);
    let _ = app.tick_system(&counters(&[("eth0", 0, 0)]), None, None, None, SEC / 4);
    let _ = app.tick_traffic(&counters(&[("eth0", 100, 50)]), SEC / 2);
    assert_eq!((app.current_rx, app.current_tx), (400, 200));
    assert_eq!(app.auto_window_bytes.get(&"eth0".to_string()), Some(&150));

    // Counters that could not be read are no baseline.
    app.current_rx = 0;
    app.current_tx = 0;
    app.rebaseline(None);
    let _ = app.tick_traffic(&counters(&[("eth0", 4000, 1000)]), SEC);
    assert_eq!((app.current_rx, app.current_tx), (0, 0));
}

#[test]
fn disks_that_were_only_written_to_are_measured() {
    let mut app = app_with(&["eth0"], 0);
    let c = counters(&[]);
    let _ = app.tick_system(&c, None, None, Some((0, 8)), SEC);
    let _ = app.tick_system(&c, None, None, Some((4, 10)), 2 * SEC);
    assert_eq!(val(app.sys_disk_read_history[1]), 2048.0);
    assert_eq!(val(app.sys_disk_write_history[1]), 1024.0);
    // Before the first sample there is nothing to measure from.
    assert_eq!(val(app.sys_disk_write_history[0]), 0.0);
}

#[test]
fn stepping_visits_every_interface_once() {
    let mut app = app_with(&["a", "b", "c", "d"], 0);
    app.iface = "c".to_string();
    app.iface_idx = 2;
    let mut seen: Vec<String> = Vec::new();
    for i in 0..4u64 {
        seen.push(app.iface.clone());
        assert_eq!(app.handle_key(Key::Tab, i), Outcome::Rebaseline);
    }
    assert_eq!(seen, ["c", "d", "a", "b"]);
    assert_eq!((app.iface.as_str(), app.iface_idx), ("c", 2));
}
