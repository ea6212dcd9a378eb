use netmon::conns::{
    conn_matches, is_bare_number, load_services, remote_peer, ConnMonitor, ConnStat, IpAddress,
    ProcReading, ServiceKey,
};
use netmon::double::Double;
use netmon::ss::parse_ss;

fn num(x: f64) -> Double {
    Double::from_bits(x.to_bits()).unwrap()
}

fn val(d: Double) -> f64 {
    f64::from_bits(d.to_bits())
}

fn conn(proto: &str, local: &str, remote: &str, comm: &str, pid: u32, rx: Option<f64>, tx: Option<f64>) -> ConnStat {
    ConnStat {
        proto: proto.to_string(),
        local: local.to_string(),
        remote: remote.to_string(),
        comm: comm.to_string(),
        pid: Some(pid),
        rx_rate: rx.map(num),
        tx_rate: tx.map(num),
        host: None,
        service: None,
    }
}

const SERVICES: &str = "# Network services
tcpmux		1/tcp				# TCP port service multiplexer
domain		53/tcp
domain		53/udp
https		443/tcp
https		443/UDP				# HTTP/3
sctpish		9/sctp
broken
odd		x/tcp
";

const SEC: u64 = 1_000_000_000;

#[test]
fn services_map_loads_common_ports() {
    let m = load_services(SERVICES);
    let get = |port: u16, proto: &str| {
        m.get(&ServiceKey { port, proto: proto.to_string() }).map(|s| s.as_str())
    };
    assert_eq!(get(443, "tcp"), Some("https"));
    assert_eq!(get(53, "udp"), Some("domain"));
    assert_eq!(get(443, "udp"), Some("https"));
    assert_eq!(get(9, "sctp"), None);
    assert_eq!(get(2, "tcp"), None);
}

#[test]
fn a_new_monitor_knows_services_and_memory() {
    let m = ConnMonitor::new(Some(SERVICES), Some("MemTotal: 4000 kB\n"));
    assert!(m.available);
    assert_eq!(m.scroll, 0);
    assert_eq!(m.last.len(), 0);
    assert_eq!(m.mem_total_kb, 4000);
    assert_eq!(m.lookup_service(53, "UDP").as_deref(), Some("domain"));
    assert_eq!(m.lookup_service(54, "udp"), None);
    let bare = ConnMonitor::new(None, None);
    assert_eq!(bare.mem_total_kb, 0);
    assert_eq!(bare.lookup_service(53, "udp"), None);
}

#[test]
fn aggregate_view_groups_by_process() {
    let mut m = ConnMonitor::new(None, None);
    m.last = vec![
        conn("tcp", "1.1.1.1:1", "2.2.2.2:2", "app", 1, Some(100.0), Some(50.0)),
        conn("tcp", "1.1.1.1:3", "2.2.2.2:4", "app", 1, Some(200.0), Some(0.0)),
        conn("udp", "1.1.1.1:5", "3.3.3.3:6", "other", 2, None, None),
    ];
    let agg = m.aggregate_view("");
    assert_eq!(agg.len(), 2);
    let app_row = agg.iter().find(|r| r.comm == "app").unwrap();
    assert_eq!(app_row.count, 2);
    assert!((val(app_row.rx_rate) - 300.0).abs() < 1e-9);
    assert!((val(app_row.tx_rate) - 50.0).abs() < 1e-9);
    let other = agg.iter().find(|r| r.comm == "other").unwrap();
    assert_eq!(other.count, 1);
    assert_eq!(other.user, "-");
    // The busiest process comes first.
    assert_eq!(agg[0].comm, "app");
    assert_eq!(m.aggregate_view("other").len(), 1);
}

#[test]
fn detail_view_filters_by_substring() {
    let mut m = ConnMonitor::new(None, None);
    m.last = vec![
        conn("tcp", "1.1.1.1:1", "2.2.2.2:2", "chrome", 1, None, None),
        conn("tcp", "1.1.1.1:3", "2.2.2.2:4", "ssh", 2, None, None),
    ];
    let f = m.detail_view("ssh");
    assert_eq!(f.len(), 1);
    assert_eq!(f[0].comm, "ssh");
    assert_eq!(m.detail_view("nomatch").len(), 0);
}

#[test]
fn filters_look_at_every_column_and_ignore_case() {
    let mut c = conn("tcp", "10.0.0.1:1", "10.0.0.2:443", "Node", 26951, None, None);
    c.host = Some("Example.ORG".to_string());
    c.service = Some("https".to_string());
    for f in ["", "node", "NODE", "2695", "0.0.1:1", ":443", "example.org", "HTTPS"] {
        assert!(conn_matches(&c, f), "{}", f);
    }
    for f in ["tcp", "nodes", "udp", "10.0.0.3"] {
        assert!(!conn_matches(&c, f), "{}", f);
    }
}

#[test]
fn scrolling_stays_within_the_rows() {
    let mut m = ConnMonitor::new(None, None);
    m.clamp_scroll(100, 20);
    m.scroll_down();
    m.scroll_down();
    m.scroll_up();
    assert_eq!(m.scroll, 1);
    m.scroll_page_down();
    assert_eq!(m.scroll, 21);
    m.scroll_page_up();
    assert_eq!(m.scroll, 1);
    m.scroll_page_up();
    assert_eq!(m.scroll, 0);
    m.scroll_up();
    assert_eq!(m.scroll, 0);
    m.scroll_bottom();
    m.clamp_scroll(100, 20);
    assert_eq!(m.scroll, 80);
    m.clamp_scroll(100, 20);
    assert_eq!(m.scroll, 80);
    m.clamp_scroll(5, 20);
    assert_eq!(m.scroll, 0);
    m.scroll_bottom();
    m.scroll_page_down();
    assert_eq!(m.scroll, usize::MAX);
    m.scroll_top();
    assert_eq!(m.scroll, 0);
}

fn listing(rx: u64, tx: u64) -> String {
    format!(
        "Netid State\ntcp ESTAB 0 0 10.0.0.2:22 10.0.0.9:443 users:((\"sshd\",pid=882,fd=4))\n\t cubic bytes_sent:{} bytes_received:{}\nudp ESTAB 0 0 127.0.0.1:5 8.8.8.8:53 users:((\"dns\",pid=7,fd=1))\n\t cubic bytes_sent:{} bytes_received:{}\n",
        tx, rx, tx, rx
    )
}

#[test]
fn sample_computes_rates_from_two_listings() {
    let mut m = ConnMonitor::new(Some(SERVICES), None);
    let far = IpAddress::V4(0x0A000009);
    let dns = IpAddress::V4(0x08080808);
    let addresses = vec![Some(far), Some(dns)];
    let ask = m.sample(&parse_ss(&listing(1000, 2000)), &addresses, 5 * SEC);
    assert_eq!(ask, vec![far, dns]);
    assert!(m.available);
    assert_eq!(m.last.len(), 2);
    assert!(m.last.iter().all(|c| c.rx_rate.is_none() && c.tx_rate.is_none()));
    assert_eq!(m.last[0].service.as_deref(), Some("https"));
    assert_eq!(m.last[0].host, None);

    // Half a second later; the host name is known by now.
    m.host_resolved(far, Some("far.example".to_string()));
    m.host_resolved(dns, None);
    let ask = m.sample(&parse_ss(&listing(2000, 2500)), &addresses, 5 * SEC + SEC / 2);
    assert!(ask.is_empty());
    let tcp = &m.last[0];
    assert_eq!(tcp.proto, "tcp");
    assert_eq!(val(tcp.rx_rate.unwrap()), 2000.0);
    assert_eq!(val(tcp.tx_rate.unwrap()), 1000.0);
    assert_eq!(tcp.host.as_deref(), Some("far.example"));
    // There is never a rate for UDP.
    let udp = &m.last[1];
    assert_eq!(udp.proto, "udp");
    assert!(udp.rx_rate.is_none() && udp.tx_rate.is_none());
    assert_eq!(udp.service.as_deref(), Some("domain"));

    // A counter that falls gives no negative rate, and no time gives no rate.
    let _ = m.sample(&parse_ss(&listing(10, 2500)), &addresses, 6 * SEC + SEC / 2);
    assert_eq!(val(m.last[0].rx_rate.unwrap()), 0.0);
    let _ = m.sample(&parse_ss(&listing(20, 2500)), &addresses, 6 * SEC + SEC / 2);
    assert!(m.last[0].rx_rate.is_none());
}

#[test]
fn connections_that_disappear_are_forgotten() {
    let mut m = ConnMonitor::new(None, None);
    let addresses = vec![None, None];
    let _ = m.sample(&parse_ss(&listing(1000, 2000)), &addresses, SEC);
    let _ = m.sample(&Vec::new(), &Vec::new(), 2 * SEC);
    assert_eq!(m.last.len(), 0);
    let _ = m.sample(&parse_ss(&listing(2000, 2000)), &addresses, 3 * SEC);
    assert!(m.last[0].rx_rate.is_none());
}

#[test]
fn the_busiest_connection_comes_first() {
    let mut m = ConnMonitor::new(None, None);
    let text = |a: u64, b: u64, c: u64| {
        format!(
            "tcp ESTAB 0 0 1.1.1.1:1 2.2.2.2:1\n\t bytes_sent:{} bytes_received:0\ntcp ESTAB 0 0 1.1.1.1:2 2.2.2.2:2\n\t bytes_sent:{} bytes_received:0\ntcp ESTAB 0 0 1.1.1.1:3 2.2.2.2:3\ntcp ESTAB 0 0 1.1.1.1:4 2.2.2.2:4\n\t bytes_sent:{} bytes_received:0\n",
            a, b, c
        )
    };
    let addresses = vec![None, None, None, None];
    let _ = m.sample(&parse_ss(&text(0, 0, 0)), &addresses, SEC);
    let _ = m.sample(&parse_ss(&text(10, 30, 20)), &addresses, 2 * SEC);
    let order: Vec<&str> = m.last.iter().map(|c| c.local.as_str()).collect();
    assert_eq!(order, vec!["1.1.1.1:2", "1.1.1.1:4", "1.1.1.1:1", "1.1.1.1:3"]);
}

#[test]
fn a_host_is_looked_up_once() {
    let mut m = ConnMonitor::new(None, None);
    let ip = IpAddress::V6(1);
    let addresses = vec![Some(ip), Some(ip)];
    let socks = parse_ss(&listing(1, 1));
    assert_eq!(m.sample(&socks, &addresses, SEC), vec![ip]);
    assert!(m.sample(&socks, &addresses, 2 * SEC).is_empty());
    m.host_resolved(ip, None);
    assert!(m.sample(&socks, &addresses, 3 * SEC).is_empty());
    assert_eq!(m.last[0].host, None);
}

#[test]
fn a_failed_run_shows_nothing() {
    let mut m = ConnMonitor::new(None, None);
    let _ = m.sample(&parse_ss(&listing(1, 1)), &vec![None, None], SEC);
    m.ss_failed();
    assert!(!m.available);
    assert_eq!(m.last.len(), 0);
    let _ = m.sample(&parse_ss(&listing(1, 1)), &vec![None, None], 2 * SEC);
    assert!(m.available);
}

#[test]
fn reset_forgets_connections_but_not_names() {
    let mut m = ConnMonitor::new(Some(SERVICES), Some("MemTotal: 1 kB"));
    let ip = IpAddress::V4(1);
    let _ = m.sample(&parse_ss(&listing(1, 1)), &vec![Some(ip), None], SEC);
    m.host_resolved(ip, Some("h".to_string()));
    m.scroll_down();
    m.reset();
    assert_eq!(m.last.len(), 0);
    assert_eq!(m.scroll, 0);
    assert_eq!(m.mem_total_kb, 1);
    let _ = m.sample(&parse_ss(&listing(2, 2)), &vec![Some(ip), None], 2 * SEC);
    assert!(m.last.iter().all(|c| c.rx_rate.is_none()));
    assert_eq!(m.last[0].host.as_deref(), Some("h"));
}

fn reading(pid: u32, ticks: u64, rss: u64, io: Option<(u64, u64)>) -> ProcReading {
    ProcReading {
        pid,
        ticks: Some((ticks, 10)),
        status: Some(("dj".to_string(), rss)),
        io,
    }
}

#[test]
fn processes_are_measured_between_two_readings() {
    let mut m = ConnMonitor::new(None, Some("MemTotal: 1000 kB"));
    m.refresh_procs(&vec![reading(7, 100, 250, Some((1000, 2000)))], 100, SEC);
    let p = m.procs.get(&7).unwrap();
    assert_eq!(p.user, "dj");
    assert_eq!(val(p.cpu_pct), 0.0);
    assert_eq!(val(p.mem_pct), 25.0);
    assert_eq!(val(p.time_secs), 1.1);
    assert_eq!(val(p.disk_read_rate), 0.0);
    m.refresh_procs(&vec![reading(7, 137, 250, Some((2000, 2500)))], 100, SEC + SEC / 2);
    let p = m.procs.get(&7).unwrap();
    assert_eq!(val(p.cpu_pct), (37.0 / (100.0 * 0.5)) * 100.0);
    assert_eq!(val(p.disk_read_rate), 2000.0);
    assert_eq!(val(p.disk_write_rate), 1000.0);

    // Counters that cannot be read lose their baseline.
    m.refresh_procs(&vec![reading(7, 137, 250, None)], 100, 2 * SEC);
    m.refresh_procs(&vec![reading(7, 137, 250, Some((9000, 9000)))], 100, 3 * SEC);
    assert_eq!(val(m.procs.get(&7).unwrap().disk_read_rate), 0.0);

    // A process that cannot be read at all still has a row.
    m.refresh_procs(
        &vec![ProcReading { pid: 8, ticks: None, status: None, io: None }],
        0,
        4 * SEC,
    );
    let p = m.procs.get(&8).unwrap();
    assert_eq!(p.user, "-");
    assert_eq!(val(p.time_secs), 0.0);
    assert!(m.procs.get(&7).is_none());
}

#[test]
fn pids_are_visited_once_in_order() {
    let mut m = ConnMonitor::new(None, None);
    m.last = vec![
        conn("tcp", "a", "b", "x", 9, None, None),
        conn("tcp", "a", "c", "x", 2, None, None),
        conn("tcp", "a", "d", "x", 9, None, None),
    ];
    m.last[1].pid = Some(2);
    let mut orphan = conn("tcp", "a", "e", "-", 0, None, None);
    orphan.pid = None;
    m.last.push(orphan);
    assert_eq!(m.visible_pids(), vec![2, 9]);
}

#[test]
fn account_names_are_settled_once() {
    let mut m = ConnMonitor::new(None, None);
    assert_eq!(m.cached_user(1000), None);
    assert_eq!(m.resolve_user(1000, "dj".to_string(), Some("other".to_string())), "dj");
    assert_eq!(m.resolve_user(1000, "1000".to_string(), None), "dj");
    assert_eq!(m.cached_user(1000).as_deref(), Some("dj"));
    // A bare number is replaced by what another source knows.
    assert_eq!(m.resolve_user(1001, "1001".to_string(), Some("ldap".to_string())), "ldap");
    assert_eq!(m.resolve_user(1002, "1002".to_string(), None), "1002");
    assert!(is_bare_number("1002"));
    assert!(!is_bare_number("4294967296"));
    assert!(!is_bare_number("dj"));
}

const LISTING: &str = "Netid State Recv-Q Send-Q                          Local Address:Port                             Peer Address:Port  Process
udp   ESTAB 0      0                              192.168.1.7%wlp2s0:68                                192.168.1.1:67
tcp   ESTAB 0      0                                     192.168.1.7:51641                           93.184.216.34:443    users:((\"node-MainThread\",pid=26951,fd=24))
\t cubic wscale:8,7 rto:204 rtt:3.1/2.2 mss:1448 cwnd:10 bytes_sent:7983 bytes_acked:7984 bytes_received:6313 segs_out:30
tcp   ESTAB 0      0      [2001:db8::7]:40000                       [2606:2800:220:1::1946]:https users:((\"x\",pid=1,fd=1))
\t cubic bytes_sent:1 bytes_received:2
";

#[test]
fn sample_runs_and_parses_real_ss() {
    let mut m = ConnMonitor::new(None, None);
    let socks = parse_ss(LISTING);
    let addresses = vec![None; socks.len()];
    let _ = m.sample(&socks, &addresses, SEC);
    assert!(m.available);
    // A second sample lets rates stabilise.
    let _ = m.sample(&socks, &addresses, SEC + SEC / 20);
    assert_eq!(m.last.len(), 3);
    assert_eq!(m.last[0].comm, "node-MainThread");
    assert_eq!(val(m.last[0].rx_rate.unwrap()), 0.0);
    assert_eq!(m.last[2].proto, "udp");
}

#[test]
fn rows_by_process_sum_up_their_connections() {
    let mut m = ConnMonitor::new(None, None);
    m.last = vec![
        conn("tcp", "a:1", "b:1", "app", 1, Some(0.1), Some(1.0)),
        conn("udp", "a:2", "b:2", "dns", 7, None, None),
        conn("tcp", "a:3", "b:3", "app", 2, Some(5.0), None),
        conn("tcp", "a:4", "b:4", "app", 1, Some(0.2), Some(2.0)),
        conn("tcp", "a:5", "b:5", "app", 1, Some(0.3), None),
    ];
    let rows = m.aggregate_view("");
    let shown: Vec<(String, Option<u32>, usize, bool)> =
        rows.iter().map(|r| (r.comm.clone(), r.pid, r.count, r.rated)).collect();
    assert_eq!(
        shown,
        [
            ("app".to_string(), Some(2), 1, true),
            ("app".to_string(), Some(1), 3, true),
            ("dns".to_string(), Some(7), 1, false),
        ],
    );
    assert_eq!(val(rows[1].rx_rate), 0.0 + 0.1 + 0.2 + 0.3);
    assert_eq!(val(rows[1].tx_rate), 3.0);
    assert_eq!(rows.iter().map(|r| r.count).sum::<usize>(), m.detail_view("").len());
}

#[test]
fn the_service_is_that_of_the_remote_port() {
    let mut m = ConnMonitor::new(Some(SERVICES), None);
    let text = "tcp ESTAB 0 0 10.0.0.2:53 10.0.0.9:443\ntcp ESTAB 0 0 10.0.0.2:443 10.0.0.9:53\nudp UNCONN 0 0 10.0.0.2:443 *:53\ntcp ESTAB 0 0 10.0.0.2:443 nowhere:443\n";
    let far = IpAddress::V4(0x0A000009);
    let socks = parse_ss(text);
    assert_eq!(remote_peer(&socks[0], Some(far)), Some((far, 443)));
    assert_eq!(remote_peer(&socks[0], None), None);
    assert_eq!(remote_peer(&socks[2], Some(far)), None);
    let asked = m.sample(&socks, &vec![Some(far), Some(far), Some(far), None], SEC);
    assert_eq!(asked, vec![far]);
    let shown: Vec<Option<&str>> = m.last.iter().map(|c| c.service.as_deref()).collect();
    assert_eq!(shown, [Some("https"), Some("domain"), None, None]);
}

#[test]
fn processes_without_a_connection_are_forgotten() {
    let mut m = ConnMonitor::new(None, None);
    m.last = vec![
        conn("tcp", "a:1", "b:1", "x", 5, None, None),
        conn("tcp", "a:2", "b:2", "y", 3, None, None),
    ];
    let read = |m: &ConnMonitor| -> Vec<ProcReading> {
        m.visible_pids().into_iter().map(|p| reading(p, 10, 10, None)).collect()
    };
    let rs = read(&m);
    m.refresh_procs(&rs, 100, SEC);
    assert!(m.procs.has(&3) && m.procs.has(&5) && m.proc_prev.has(&5));
    let _ = m.last.remove(0);
    let rs = read(&m);
    m.refresh_procs(&rs, 100, 2 * SEC);
    assert!(m.procs.has(&3) && !m.procs.has(&5) && !m.proc_prev.has(&5));
}
