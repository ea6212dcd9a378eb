use netmon::conns::{AggRow, ConnStat};
use netmon::double::Double;
use netmon::rank::{order_of, SortVal};
use netmon::rows::{next_column, sort_order, sort_rows, sort_val, ConnRow, SortKey};
use netmon::table::Table;

fn num(x: f64) -> Double {
    Double::from_bits(x.to_bits()).unwrap()
}

fn val(d: Double) -> f64 {
    f64::from_bits(d.to_bits())
}

fn agg_row(comm: &str, pid: u32, user: &str, cpu: f64, mem: f64, dr: f64, dw: f64) -> ConnRow {
    ConnRow::Agg(AggRow {
        comm: comm.to_string(),
        pid: Some(pid),
        count: 1,
        rx_rate: num(0.0),
        tx_rate: num(0.0),
        rated: true,
        user: user.to_string(),
        time_secs: num(0.0),
        cpu_pct: num(cpu),
        mem_pct: num(mem),
        disk_read_rate: num(dr),
        disk_write_rate: num(dw),
    })
}

#[test]
fn sorts_aggregate_rows_by_column() {
    let agg = |cpu: f64, mem: f64, user: &str| agg_row("x", 1, user, cpu, mem, 0.0, 0.0);
    let mut rows = vec![agg(10.0, 1.0, "bob"), agg(50.0, 5.0, "amy"), agg(30.0, 3.0, "cara")];
    let cpus = |rows: &Vec<ConnRow>| -> Vec<f64> {
        rows.iter()
            .map(|r| match r {
                ConnRow::Agg(a) => val(a.cpu_pct),
                _ => 0.0,
            })
            .collect()
    };

    // CPU% descending: 50, 30, 10.
    sort_rows(&mut rows, SortKey::Cpu, false);
    assert_eq!(cpus(&rows), vec![50.0, 30.0, 10.0]);

    // CPU% ascending: 10, 30, 50.
    sort_rows(&mut rows, SortKey::Cpu, true);
    assert_eq!(cpus(&rows), vec![10.0, 30.0, 50.0]);

    // USER ascending alphabetically: amy, bob, cara.
    sort_rows(&mut rows, SortKey::User, true);
    let users: Vec<String> = rows
        .iter()
        .map(|r| match r {
            ConnRow::Agg(a) => a.user.clone(),
            _ => String::new(),
        })
        .collect();
    assert_eq!(users, vec!["amy", "bob", "cara"]);
}

#[test]
fn sorts_aggregate_rows_by_disk_columns() {
    let mut rows = vec![
        agg_row("a", 1, "a", 0.0, 0.0, 100.0, 5.0),
        agg_row("b", 2, "b", 0.0, 0.0, 300.0, 50.0),
        agg_row("c", 3, "c", 0.0, 0.0, 200.0, 20.0),
    ];

    // DISKR descending: 300 (b), 200 (c), 100 (a).
    sort_rows(&mut rows, SortKey::DiskR, false);
    let dr: Vec<f64> = rows
        .iter()
        .map(|r| match r {
            ConnRow::Agg(x) => val(x.disk_read_rate),
            _ => 0.0,
        })
        .collect();
    assert_eq!(dr, vec![300.0, 200.0, 100.0]);

    // DISKW ascending: 5 (a), 20 (c), 50 (b).
    sort_rows(&mut rows, SortKey::DiskW, true);
    let dw: Vec<f64> = rows
        .iter()
        .map(|r| match r {
            ConnRow::Agg(x) => val(x.disk_write_rate),
            _ => 0.0,
        })
        .collect();
    assert_eq!(dw, vec![5.0, 20.0, 50.0]);
}

fn detail(comm: &str, rx: Option<f64>, host: Option<&str>) -> ConnRow {
    ConnRow::Detail(ConnStat {
        proto: "tcp".to_string(),
        local: "l".to_string(),
        remote: "r".to_string(),
        comm: comm.to_string(),
        pid: None,
        rx_rate: rx.map(num),
        tx_rate: None,
        host: host.map(|h| h.to_string()),
        service: None,
    })
}

fn names(rows: &Vec<ConnRow>) -> Vec<String> {
    rows.iter()
        .map(|r| match r {
            ConnRow::Detail(c) => c.comm.clone(),
            ConnRow::Agg(a) => a.comm.clone(),
        })
        .collect()
}

#[test]
fn equal_rows_keep_their_order_both_ways() {
    let mut rows = vec![
        detail("c", Some(1.0), None),
        detail("a", None, Some("z")),
        detail("b", Some(1.0), None),
        detail("d", Some(2.0), Some("y")),
    ];
    sort_rows(&mut rows, SortKey::Rx, false);
    assert_eq!(names(&rows), vec!["d", "c", "b", "a"]);
    sort_rows(&mut rows, SortKey::Rx, true);
    assert_eq!(names(&rows), vec!["a", "c", "b", "d"]);
    sort_rows(&mut rows, SortKey::Host, true);
    assert_eq!(names(&rows), vec!["c", "b", "d", "a"]);
    // A column that does not apply leaves the rows alone.
    sort_rows(&mut rows, SortKey::Cpu, false);
    assert_eq!(names(&rows), vec!["c", "b", "d", "a"]);
    // Sorting again changes nothing.
    sort_rows(&mut rows, SortKey::Proc, true);
    assert_eq!(names(&rows), vec!["a", "b", "c", "d"]);
    sort_rows(&mut rows, SortKey::Proc, true);
    assert_eq!(names(&rows), vec!["a", "b", "c", "d"]);
}

#[test]
fn values_of_different_kinds_are_ordered() {
    let none = SortVal::Nothing;
    let text = SortVal::Text("zzz".to_string());
    let number = SortVal::Num(num(0.0));
    assert!(none.is_before(&text));
    assert!(text.is_before(&number));
    assert!(none.is_before(&number));
    assert!(!number.is_before(&text));
    assert!(!none.is_before(&SortVal::Nothing));
    assert!(SortVal::Text("ab".to_string()).is_before(&SortVal::Text("abc".to_string())));
    assert!(SortVal::Text("Z".to_string()).is_before(&SortVal::Text("a".to_string())));
    assert!(SortVal::Num(num(1.0)).is_before(&SortVal::Num(num(1.5))));
    let keys = vec![number, text, none];
    assert_eq!(order_of(&keys, true), vec![2, 1, 0]);
    assert_eq!(order_of(&keys, false), vec![0, 1, 2]);
}

#[test]
fn every_column_has_a_value() {
    let a = agg_row("p", 3, "u", 1.0, 2.0, 4.0, 5.0);
    for k in sort_order(true) {
        assert!(!matches!(sort_val(&a, k), SortVal::Nothing));
    }
    let d = detail("p", None, None);
    for k in sort_order(false) {
        assert!(!matches!(sort_val(&d, k), SortVal::Nothing));
    }
    assert!(matches!(sort_val(&a, SortKey::Proto), SortVal::Nothing));
    assert!(matches!(sort_val(&d, SortKey::User), SortVal::Nothing));
    assert!(matches!(sort_val(&a, SortKey::Proc), SortVal::Text(s) if s == "p(3)"));
    assert!(matches!(sort_val(&d, SortKey::Throughput), SortVal::Num(x) if val(x) == 0.0));
}

#[test]
fn columns_rotate() {
    for aggregate in [true, false] {
        let order = sort_order(aggregate);
        for (i, k) in order.iter().enumerate() {
            assert_eq!(next_column(aggregate, *k), order[(i + 1) % order.len()]);
        }
        assert_eq!(next_column(aggregate, SortKey::Throughput), order[0]);
    }
    assert_eq!(next_column(false, SortKey::Cpu), SortKey::Proc);
}

#[test]
fn sorts_many_rows() {
    let mut rows = Vec::new();
    let mut s: u64 = 3;
    for i in 0..500u32 {
        s = s.wrapping_mul(6364136223846793005).wrapping_add(1442695040888963407);
        rows.push(agg_row(&format!("p{}", i), i, "u", (s >> 60) as f64, 0.0, 0.0, 0.0));
    }
    sort_rows(&mut rows, SortKey::Cpu, false);
    let got: Vec<(f64, u32)> = rows
        .iter()
        .map(|r| match r {
            ConnRow::Agg(a) => (val(a.cpu_pct), a.pid.unwrap()),
            _ => unreachable!(),
        })
        .collect();
    assert_eq!(got.len(), 500);
    for w in got.windows(2) {
        assert!(w[0].0 > w[1].0 || (w[0].0 == w[1].0 && w[0].1 < w[1].1));
    }
}

#[test]
fn tables_behave_like_maps() {
    let mut t: Table<String, u64> = Table::new();
    assert!(t.get(&"a".to_string()).is_none());
    t.insert("a".to_string(), 1);
    t.insert("b".to_string(), 2);
    t.insert("a".to_string(), 3);
    assert_eq!(t.get(&"a".to_string()), Some(&3));
    let mut keep: Table<String, ()> = Table::new();
    keep.insert("a".to_string(), ());
    keep.insert("c".to_string(), ());
    t.retain_in(&keep);
    assert!(t.has(&"a".to_string()));
    assert!(!t.has(&"b".to_string()));
    assert!(!t.has(&"c".to_string()));
    t.zero_all();
    assert_eq!(t.get(&"a".to_string()), Some(&0));
    t.remove(&"a".to_string());
    assert!(!t.has(&"a".to_string()));
    t.insert("z".to_string(), 9);
    t.clear();
    assert!(!t.has(&"z".to_string()));
}
