use netmon::conns::{ConnMonitor, ConnStat, ProcReading};
use netmon::double::Double;
use netmon::layout::{Area, Sizing};
use netmon::panel::{Panel, PanelBody};
use netmon::rows::{sort_order, SortKey};
use netmon::state::App;
use netmon::top::{screen_layout, top_layout};

fn num(x: f64) -> Double {
    Double::from_bits(x.to_bits()).unwrap()
}

fn area(x: u16, y: u16, width: u16, height: u16) -> Area {
    Area { x, y, width, height }
}

fn stat(
    proto: &str,
    local: &str,
    remote: &str,
    comm: &str,
    pid: u32,
    rates: (Option<f64>, Option<f64>),
    names: (Option<&str>, Option<&str>),
) -> ConnStat {
    ConnStat {
        proto: proto.to_string(),
        local: local.to_string(),
        remote: remote.to_string(),
        comm: comm.to_string(),
        pid: Some(pid),
        rx_rate: rates.0.map(num),
        tx_rate: rates.1.map(num),
        host: names.0.map(|s| s.to_string()),
        service: names.1.map(|s| s.to_string()),
    }
}

fn sample_app() -> App {
    let names = vec!["dummy0".to_string()];
    let mut app = App::new("dummy0".to_string(), names, 0, ConnMonitor::new(None, None), 0);
    app.conns.last = vec![
        stat(
            "tcp",
            "10.0.0.1:1",
            "10.0.0.2:2",
            "procA",
            11,
            (Some(1000.0), Some(500.0)),
            (Some("hosta"), Some("https")),
        ),
        stat("tcp", "10.0.0.1:3", "10.0.0.3:4", "procB", 12, (Some(20.0), None), (None, None)),
        stat("udp", "10.0.0.1:5", "10.0.0.4:6", "procA", 11, (None, None), (None, Some("domain"))),
    ];
    app
}

fn draw(app: &mut App, width: u16, height: u16) -> Panel {
    let s = screen_layout(area(0, 0, width, height), app.focus_conns);
    if let Some(top) = s.top {
        let _ = app.top_view(top, 1_700_000_000);
    }
    app.conn_panel(s.panel)
}

fn table(p: &Panel) -> (Vec<String>, Vec<Vec<String>>, Vec<bool>) {
    match &p.body {
        PanelBody::Table { header, rows, .. } => (
            header.clone(),
            rows.iter().map(|r| r.cells.clone()).collect(),
            rows.iter().map(|r| r.zebra).collect(),
        ),
        PanelBody::Message(m) => panic!("{}", m),
    }
}

fn message(p: &Panel) -> String {
    match &p.body {
        PanelBody::Message(m) => m.clone(),
        _ => panic!("a table"),
    }
}

#[test]
fn renders_all_connection_modes_without_panic() {
    let mut app = sample_app();

    // Detail view (default).
    let p = draw(&mut app, 120, 40);
    let (_, rows, _) = table(&p);
    assert_eq!(rows.len(), 3);
    // Focus mode.
    app.focus_conns = true;
    assert_eq!(table(&draw(&mut app, 120, 40)).1.len(), 3);
    // Aggregate view.
    app.focus_conns = false;
    app.aggregate = true;
    assert_eq!(table(&draw(&mut app, 120, 40)).1.len(), 2);
    // Filter that matches some rows.
    app.aggregate = false;
    app.filter = "procA".to_string();
    assert_eq!(table(&draw(&mut app, 120, 40)).1.len(), 2);
    // Filter that matches nothing.
    app.filter = "zzz".to_string();
    assert_eq!(message(&draw(&mut app, 120, 40)), " no connections match the filter ");
}

#[test]
fn aggregate_header_shows_disk_columns() {
    let mut app = sample_app();
    app.aggregate = true;
    let content = table(&draw(&mut app, 200, 40)).0.join(" ");
    assert!(content.contains("DISKR"), "aggregate header missing DISKR");
    assert!(content.contains("DISKW"), "aggregate header missing DISKW");
}

#[test]
fn renders_unavailable_and_empty_states() {
    let mut app = sample_app();
    app.conns.available = false;
    let hits = app.col_hit.len();
    assert_eq!(message(&draw(&mut app, 80, 20)), " ss unavailable — install iproute2's `ss` ");
    assert_eq!(app.col_hit.len(), hits);

    // Empty list (ss available but no connections).
    let mut app2 = sample_app();
    app2.conns.last.clear();
    app2.conns.available = true;
    let p = draw(&mut app2, 80, 20);
    assert_eq!(message(&p), " no active connections ");
    assert!(p.title.starts_with(" Top Connections 0-0/0 "));
}

#[test]
fn detail_rows_say_what_is_known() {
    let mut app = sample_app();
    let p = app.conn_panel(area(1, 32, 118, 7));
    assert_eq!(
        p.title,
        " Top Connections 1-3/3 ↑↓ pg:scroll c:focus a:agg /:filter click hdr/o:sort O:dir",
    );
    let (header, rows, zebra) = table(&p);
    assert_eq!(header, vec!["PROC(PID)", "PRO", "SRC", "DST", "HOST", "SVC", "RX", "TX"]);
    assert_eq!(
        rows[0],
        vec![
            "procA(11)",
            "tcp",
            "10.0.0.1:1",
            "10.0.0.2:2",
            "hosta",
            "https",
            "  1000 B/s",
            "   500 B/s",
        ],
    );
    assert_eq!(rows[1][4..], ["-", "-", "    20 B/s", "n/a"]);
    assert_eq!(rows[2][4..], ["-", "domain", "n/a", "n/a"]);
    assert_eq!(zebra, vec![false, true, false]);
}

#[test]
fn process_rows_show_resources() {
    let mut app = sample_app();
    app.conns.mem_total_kb = 1000;
    let read = |ticks: u64| ProcReading {
        pid: 11,
        ticks: Some((ticks, 0)),
        status: Some(("dj".to_string(), 400)),
        io: Some((ticks * 100, ticks * 10)),
    };
    app.conns.refresh_procs(&vec![read(13111)], 100, 0);
    app.conns.refresh_procs(&vec![read(13148)], 100, 500_000_000);
    app.aggregate = true;
    app.sort_key = SortKey::User;
    app.sort_asc = true;
    let p = app.conn_panel(area(0, 0, 126, 10));
    let (header, rows, _) = table(&p);
    assert_eq!(
        header,
        vec![
            "USER ▲", "PROC(PID)", "CPU%", "MEM%", "TIME+", "CONNS", "RX", "TX", "DISKR", "DISKW"
        ],
    );
    assert!(p.title.contains("/2 [agg] "));
    assert_eq!(rows[0][..3], ["-", "procB(12)", "   0.0%"]);
    assert_eq!(
        rows[1],
        vec![
            "dj",
            "procA(11)",
            "  74.0%",
            "  40.0%",
            "02:11.48",
            "2",
            "  1000 B/s",
            "   500 B/s",
            "   7.2 KB/s",
            "   740 B/s",
        ],
    );
    app.sort_asc = false;
    let (header, rows, _) = table(&app.conn_panel(area(0, 0, 126, 10)));
    assert_eq!(header[0], "USER ▼");
    assert_eq!(rows[0][0], "dj");
}

#[test]
fn titles_show_range_and_filter() {
    let mut app = sample_app();
    app.conns.last = (0..45u32)
        .map(|i| stat("tcp", "l", &format!("r{}", i), "p", i, (None, None), (None, None)))
        .collect();
    app.conns.scroll = 11;
    let p = app.conn_panel(area(0, 0, 100, 13));
    assert!(p.title.starts_with(" Top Connections 12-21/45 ↑↓"));
    let (_, rows, zebra) = table(&p);
    assert_eq!(rows.len(), 10);
    assert_eq!(rows[0][3], "r11");
    assert_eq!(zebra[..2], [true, false]);
    // The scroll position is kept within the rows.
    app.conns.scroll = usize::MAX;
    let p = app.conn_panel(area(0, 0, 100, 13));
    assert!(p.title.starts_with(" Top Connections 36-45/45 "));
    assert_eq!(app.conns.scroll, 35);
    app.filter_mode = true;
    assert!(app.conn_panel(area(0, 0, 100, 13)).title.contains("filter:\"\" "));
    app.filter_mode = false;
    app.filter = "R4".to_string();
    let p = app.conn_panel(area(0, 0, 100, 13));
    assert!(p.title.starts_with(" Top Connections 1-6/6 filter:\"R4\" ↑↓"));
    // There is always room for one row.
    assert_eq!(table(&app.conn_panel(area(0, 0, 100, 0))).1.len(), 1);
}

#[test]
fn column_titles_can_be_clicked() {
    let mut app = sample_app();
    app.aggregate = true;
    let _ = app.conn_panel(area(4, 7, 130, 10));
    assert_eq!(app.header_y, 8);
    // All columns find room, so each has its width.
    let ends: Vec<u16> = app.col_hit.iter().map(|h| h.1).collect();
    assert_eq!(app.col_hit[0].0, 5);
    assert_eq!(ends, vec![13, 37, 53, 69, 79, 85, 96, 107, 118, 129]);
    let keys: Vec<SortKey> = app.col_hit.iter().map(|h| h.2).collect();
    assert_eq!(keys, sort_order(true));
    app.handle_click(40, 8);
    assert_eq!(app.sort_key, SortKey::Cpu);
    let (header, _, _) = table(&app.conn_panel(area(4, 7, 130, 10)));
    assert_eq!(header[2], "CPU% ▼");
    // The detail view has eight columns, within the borders.
    app.aggregate = false;
    for width in [0u16, 1, 2, 30, 83, 84, 200] {
        let _ = app.conn_panel(area(4, 7, width, 10));
        assert_eq!(app.col_hit.len(), 8);
        for h in &app.col_hit {
            assert!(h.0 >= 4 && h.0 <= h.1 && h.1 <= 4 + width.max(1));
        }
    }
    match app.conn_panel(area(0, 0, 100, 10)).body {
        PanelBody::Table { widths, .. } => {
            assert_eq!(widths[..3], [Sizing::Min(14), Sizing::Length(4), Sizing::Min(13)]);
        },
        _ => panic!("a table"),
    }
}

#[test]
fn the_screen_is_divided() {
    let s = screen_layout(area(0, 0, 120, 50), false);
    assert_eq!(s.top, Some(area(1, 1, 118, 31)));
    assert_eq!(s.panel, area(1, 32, 118, 17));
    let s = screen_layout(area(0, 0, 120, 50), true);
    assert_eq!(s.top, None);
    assert_eq!(s.panel, area(1, 1, 118, 48));
    // A screen without room for the margin.
    let s = screen_layout(area(0, 0, 1, 1), true);
    assert_eq!(s.panel, area(0, 0, 0, 0));
    for (w, h) in [(80u16, 20u16), (10, 36), (3, 3), (2, 2)] {
        let s = screen_layout(area(0, 0, w, h), false);
        let top = s.top.unwrap();
        assert!(top.y + top.height <= h && s.panel.y + s.panel.height <= h);
        assert_eq!(top.width, w - 2);
    }
}

#[test]
fn the_top_section_has_six_curves_of_equal_height() {
    let l = top_layout(area(1, 1, 118, 31));
    assert_eq!(l.title, area(1, 1, 118, 3));
    assert_eq!(l.stats, area(1, 4, 118, 27));
    assert_eq!(l.footer, area(1, 31, 118, 1));
    assert_eq!(l.inner, area(2, 5, 116, 25));
    assert_eq!(l.rows.len(), 13);
    for i in 0..6 {
        assert_eq!(l.rows[2 * i].height, 3);
        assert_eq!(l.rows[2 * i].y, 5 + 4 * i as u16);
        assert_eq!(l.rows[2 * i + 1].y, 8 + 4 * i as u16);
        let m = &l.metrics[i];
        assert_eq!(m.label, area(2, 5 + 4 * i as u16, 20, 3));
        assert_eq!(m.divider.x, 22);
        assert_eq!(m.chart, area(23, 5 + 4 * i as u16, 95, 3));
    }
    assert_eq!(l.rows[12].y, 29);
    assert_eq!(l.grid_at(22, 8), Some('┼'));
    assert_eq!(l.grid_at(22, 28), Some('┼'));
    assert_eq!(l.grid_at(23, 8), Some('─'));
    assert_eq!(l.grid_at(2, 28), Some('─'));
    assert_eq!(l.grid_at(22, 5), Some('│'));
    assert_eq!(l.grid_at(22, 29), Some('│'));
    assert_eq!(l.grid_at(23, 5), None);
    assert_eq!(l.grid_at(118, 8), None);
    assert_eq!(l.grid_at(22, 30), None);
    assert_eq!(l.grid_at(22, 4), None);
}

#[test]
fn the_top_section_shows_the_state() {
    let mut app = sample_app();
    app.current_rx = 1258291;
    app.current_tx = 131072;
    app.peak_speed = 5662310;
    for i in 0..600u64 {
        app.rx_history.push_back(i);
        app.tx_history.push_back(0);
    }
    app.sys_cpu_history.push_back(num(23.4));
    app.sys_disk_read_history.push_back(num(2048.9));
    let v = app.top_view(area(1, 1, 118, 31), 1_700_000_000);
    assert_eq!(v.interface, "interface: dummy0");
    assert_eq!(v.position, "iface 1/1");
    assert_eq!(v.box_title, " ▼ DL / ▲ UL / CPU / MEM / DISK R / DISK W History (24h) ");
    assert_eq!(
        v.labels,
        vec![
            "▼ DL    1.2 MB/s",
            "▲ UL  128.0 KB/s",
            "▌ CPU 23.4%",
            "▌ MEM 0.0%",
            "▌ DISK R    2.0 KB/s",
            "▌ DISK W      0 B/s",
        ],
    );
    assert_eq!(v.footer, vec!["Session peak:    5.4 MB/s", "Samples: 600", "auto: on"]);
    assert_eq!(v.curves.len(), 6);
    assert_eq!(v.curves[0].len(), 3);
    assert_eq!(v.curves[0][0].len(), 95);
    assert_eq!(v.curves[3].len(), 0);
    // The largest value is drawn a tenth below the top.
    assert_eq!(v.curves[0][0][94] as u32 & 0xFFFF_FF00, 0x2800);
    assert_ne!(v.curves[0][0][94], '⠀');
    assert_eq!(v.axis.len(), 6);
    assert_eq!(v.axis[0].text, "06:08");
    assert_eq!(v.now.unwrap().text, "now 06:13:20");
    app.auto_iface = false;
    app.rx_history.clear();
    let v = app.top_view(area(1, 1, 118, 31), 1_700_000_000);
    assert_eq!(v.footer[2], "auto: off");
    assert!(v.axis.is_empty() && v.now.is_none());
    assert!(v.curves[0].is_empty());
}

#[test]
fn small_screens_are_drawn_too() {
    let mut app = sample_app();
    app.rx_history.push_back(1);
    app.rx_history.push_back(2);
    for w in 0..40u16 {
        for h in [0u16, 1, 2, 5, 9, 33, 34, 40] {
            let _ = draw(&mut app, w * 3, h);
        }
    }
}

#[test]
fn the_default_order_is_that_of_the_sample() {
    let mut app = sample_app();
    app.conns.last = vec![
        stat("tcp", "a", "1", "p", 1, (Some(30.0), Some(1.0)), (None, None)),
        stat("tcp", "b", "2", "q", 2, (Some(0.0), Some(0.0)), (None, None)),
        stat("udp", "c", "3", "p", 1, (None, None), (None, None)),
        stat("udp", "d", "4", "r", 3, (None, None), (None, None)),
    ];
    let (_, rows, _) = table(&app.conn_panel(area(0, 0, 100, 20)));
    let order: Vec<&str> = rows.iter().map(|r| r[2].as_str()).collect();
    assert_eq!(order, vec!["a", "b", "c", "d"]);
    app.filter = "p".to_string();
    let (_, rows, _) = table(&app.conn_panel(area(0, 0, 100, 20)));
    let order: Vec<&str> = rows.iter().map(|r| r[2].as_str()).collect();
    assert_eq!(order, vec!["a", "c"]);
    app.filter.clear();
    app.aggregate = true;
    let (_, rows, _) = table(&app.conn_panel(area(0, 0, 150, 20)));
    let order: Vec<&str> = rows.iter().map(|r| r[1].as_str()).collect();
    assert_eq!(order, vec!["p(1)", "q(2)", "r(3)"]);
}

#[test]
fn a_process_without_known_rates_shows_none() {
    let mut app = sample_app();
    app.conns.last =
        vec![stat("udp", "127.0.0.53:53", "8.8.8.8:53", "resolver", 1031, (None, None), (None, None))];
    app.aggregate = true;
    let (_, rows, _) = table(&app.conn_panel(area(0, 0, 140, 10)));
    assert_eq!(rows.len(), 1);
    assert_eq!(rows[0][1], "resolver(1031)");
    assert_eq!((rows[0][6].as_str(), rows[0][7].as_str()), ("n/a", "n/a"));
    // One known rate is enough, even of an idle connection.
    app.conns.last.push(stat(
        "tcp",
        "127.0.0.1:1",
        "127.0.0.1:2",
        "resolver",
        1031,
        (Some(0.0), Some(0.0)),
        (None, None),
    ));
    let (_, rows, _) = table(&app.conn_panel(area(0, 0, 140, 10)));
    assert_eq!(rows[0][5], "2");
    assert_eq!((rows[0][6].as_str(), rows[0][7].as_str()), ("     0 B/s", "     0 B/s"));
}

#[test]
fn the_connections_keep_five_rows_on_a_low_screen() {
    for h in 2u16..40 {
        let s = screen_layout(area(0, 0, 80, h), false);
        let room = h - 2;
        let panel = if room >= 36 { room - 31 } else { room.min(5) };
        assert_eq!(s.top, Some(area(1, 1, 78, room - panel)));
        assert_eq!(s.panel, area(1, 1 + room - panel, 78, panel));
    }
    // Title and footer of the top section remain whole.
    for h in 7u16..31 {
        let l = top_layout(area(0, 0, 80, h));
        assert_eq!(l.title, area(0, 0, 80, 3));
        assert_eq!(l.stats, area(0, 3, 80, h - 4));
        assert_eq!(l.footer, area(0, h - 1, 80, 1));
    }
}

#[test]
fn growing_columns_share_the_rest_evenly() {
    let mut app = sample_app();
    let _ = app.conn_panel(area(0, 0, 120, 10));
    let places: Vec<(u16, u16)> = app.col_hit.iter().map(|h| (h.0, h.1)).collect();
    assert_eq!(
        places,
        [(1, 23), (23, 27), (27, 50), (50, 72), (72, 94), (94, 101), (101, 110), (110, 119)],
    );
    let keys: Vec<SortKey> = app.col_hit.iter().map(|h| h.2).collect();
    assert_eq!(keys, sort_order(false));
    // Wherever there is too little room, the columns still follow each other.
    for aggregate in [false, true] {
        app.aggregate = aggregate;
        for width in 0..160u16 {
            let _ = app.conn_panel(area(3, 0, width, 10));
            assert_eq!(app.col_hit[0].0, 3 + width.min(1));
            for i in 1..app.col_hit.len() {
                assert_eq!(app.col_hit[i - 1].1, app.col_hit[i].0);
            }
        }
    }
}

#[test]
fn columns_give_way_in_order() {
    let mut app = sample_app();
    let widths = |app: &App| -> Vec<u16> { app.col_hit.iter().map(|h| h.1 - h.0).collect() };
    // The name of a process, down to the width of the next column.
    app.aggregate = true;
    for room in 116..=124u16 {
        let _ = app.conn_panel(area(0, 0, room + 2, 10));
        assert_eq!(widths(&app), [8, room - 100, 16, 16, 10, 6, 11, 11, 11, 11]);
    }
    // The rates of a connection, and then its service too.
    app.aggregate = false;
    let _ = app.conn_panel(area(1, 0, 82, 10));
    assert_eq!(widths(&app), [14, 4, 13, 13, 12, 7, 9, 8]);
    let _ = app.conn_panel(area(1, 0, 78, 10));
    assert_eq!(widths(&app), [14, 4, 13, 13, 12, 7, 6, 7]);
    let _ = app.conn_panel(area(1, 0, 58, 10));
    assert_eq!(widths(&app), [14, 4, 13, 13, 12, 0, 0, 0]);
    // The label beside a curve.
    for width in 22..=41u16 {
        let l = top_layout(area(0, 0, width + 2, 31));
        assert_eq!(l.metrics[0].label, area(1, 4, width - 21, 3));
        assert_eq!(l.metrics[0].divider.x, width - 20);
        assert_eq!(l.metrics[0].chart, area(width - 19, 4, 20, 3));
    }
}

#[test]
fn a_low_box_is_shared_evenly() {
    for h in 7u16..19 {
        let l = top_layout(area(0, 0, 80, h));
        let room = l.inner.height;
        assert_eq!(room, h - 6);
        assert_eq!(l.rows.len(), 13);
        for i in 0..13u16 {
            assert_eq!(l.rows[i as usize].y, l.inner.y + (2 * i * room + 13) / 26);
        }
    }
}
