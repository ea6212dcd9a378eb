//! What is written on the screen.

use vstd::arithmetic::div_mod::*;
use vstd::arithmetic::power2::*;
use vstd::prelude::*;

use crate::conns;
use crate::conns::ConnMonitor;
use crate::double;
use crate::double::SIG;
use crate::matching;
use crate::measuring;
use crate::panel;
use crate::panel::PanelRow;
use crate::rank;
use crate::rounding;
use crate::rows;
use crate::rows::{RowModel, SortKey};
use crate::show;
use crate::state::AppModel;
use crate::text;

verus! {

// ── Numbers ──────────────────────────────────────────────────────────────────

/// A quotient that is rounded to a whole number is off by at most a half, and exactly
/// between two goes to the even one.
pub proof fn law_half_even(num: nat, den: nat)
    requires
        den > 0,
    ensures
        ({
            let t = double::half_even(num, den);
            &&& 2 * num <= (2 * t + 1) * den
            &&& (2 * t - 1) * den <= 2 * num
            &&& 2 * num == (2 * t + 1) * den || (2 * t - 1) * den == 2 * num ==> t % 2 == 0
        }),
{
    let q = num / den;
    let r = num % den;
    let t = double::half_even(num, den);
    lemma_fundamental_div_mod(num as int, den as int);
    lemma_mod_bound(num as int, den as int);
    assert((2 * q + 1) * den == 2 * (den * q) + den) by (nonlinear_arith);
    assert((2 * q - 1) * den == 2 * (den * q) - den) by (nonlinear_arith);
    assert((2 * (q + 1) + 1) * den == 2 * (den * q) + 3 * den) by (nonlinear_arith);
    assert((2 * (q + 1) - 1) * den == 2 * (den * q) + den) by (nonlinear_arith);
}

/// Two digits, with a zero in front of a single one.
pub proof fn law_two_digits(n: nat)
    requires
        n < 100,
    ensures
        show::two(n).len() == 2,
        show::two(n)[0] as u32 == '0' as u32 + n / 10,
        show::two(n)[1] as u32 == '0' as u32 + n % 10,
{
    reveal_with_fuel(text::decimal, 3);
    if n < 10 {
        assert(n / 10 == 0 && n % 10 == n);
        assert(text::decimal(n).len() == 1);
        assert(text::decimal(n)[0] == text::digit(n));
    } else {
        assert(n / 10 < 10);
        assert(text::decimal(n / 10) =~= seq![text::digit(n / 10)]);
        assert(text::decimal(n) =~= seq![text::digit(n / 10), text::digit(n % 10)]);
    }
}

/// A number with one place behind the point: the tenths are the nearest, and the last
/// digit stands behind the point.
pub proof fn law_one_place(tenths: nat)
    ensures
        ({
            let s = show::one_place(tenths);
            let n = s.len() as int;
            &&& n >= 3
            &&& s[n - 2] == '.'
            &&& s[n - 1] as u32 == '0' as u32 + tenths % 10
            &&& text::parse_num(s.take(n - 2), tenths) == Some((tenths / 10) as nat)
        }),
{
    let s = show::one_place(tenths);
    let n = s.len() as int;
    let d = text::decimal(tenths / 10);
    text::lemma_decimal_digits(tenths / 10);
    assert(text::decimal(tenths % 10) =~= seq![text::digit(tenths % 10)]);
    assert(n == d.len() + 2);
    assert(s.take(n - 2) =~= d);
    text::law_decimal_reads_back(tenths / 10, tenths);
}

/// A finite number is shown with its nearest tenths; a whole one with a zero there.
pub proof fn law_number_text(d: nat)
    requires
        d < double::infinity(),
    ensures
        exists|t: nat|
            show::number_text(d) == #[trigger] show::one_place(t) && 2 * (10 * d) <= (2 * t + 1)
                * double::one() && (2 * t - 1) * double::one() <= 2 * (10 * d),
{
    lemma_pow2_pos(1074);
    law_half_even(d * 10, double::one());
    let t = double::half_even(d * 10, double::one());
    assert(show::number_text(d) == show::one_place(t));
}

/// Percentages are six wide, with a sign behind them.
pub proof fn law_percent_text(d: nat)
    ensures
        ({
            let s = panel::percent_text(d);
            &&& s.last() == '%'
            &&& s.len() >= 7
            &&& s.drop_last() == text::pad(show::number_text(d), 6, ' ')
        }),
{
    let s = panel::percent_text(d);
    assert(s.drop_last() =~= text::pad(show::number_text(d), 6, ' '));
}

proof fn lemma_small_exact(n: nat)
    requires
        n < SIG,
    ensures
        double::nearest(n, 1) == n,
{
    lemma2_to64();
    lemma2_to64_rest();
    lemma_pow2_strictly_increases(53, 2098);
    assert(n * pow2(0) == n) by (nonlinear_arith)
        requires
            pow2(0) == 1,
    ;
    rounding::lemma_nearest_exact(n, 0, 1);
}

/// Whether `s` is a speed in the unit that `name` names and that has `size` bytes: the
/// nearest tenths of it, six wide, a blank and the name.
pub open spec fn is_in_unit(s: Seq<char>, bytes: nat, size: nat, name: Seq<char>) -> bool {
    exists|t: nat|
        s == text::pad(#[trigger] show::one_place(t), 6, ' ') + seq![' '] + name && 20 * bytes <= (2
            * t + 1) * size && (2 * t - 1) * size <= 20 * bytes
}

/// Speeds: whole bytes up to 1023, then tenths of the largest unit that the speed has
/// at least one of, each unit 1024 times the one before.
pub proof fn law_speed_text(bytes: u64)
    requires
        bytes < SIG,
    ensures
        ({
            let s = show::speed_text(bytes);
            let n = bytes as nat;
            &&& n < 1024 ==> s == text::pad(text::decimal(n), 6, ' ') + seq![' '] + "B/s"@
            &&& 1024 <= n < 1024 * 1024 ==> is_in_unit(s, n, 1024, "KB/s"@)
            &&& 1024 * 1024 <= n < 1024 * 1024 * 1024 ==> is_in_unit(s, n, 1024 * 1024, "MB/s"@)
            &&& 1024 * 1024 * 1024 <= n < 1024 * 1024 * 1024 * 1024 ==> is_in_unit(
                s,
                n,
                1024 * 1024 * 1024,
                "GB/s"@,
            )
            &&& 1024 * 1024 * 1024 * 1024 <= n ==> is_in_unit(
                s,
                n,
                1024 * 1024 * 1024 * 1024,
                "TB/s"@,
            )
        }),
{
    let n = bytes as nat;
    lemma_small_exact(n);
    if n >= 1024 {
        let size = show::unit_size(show::unit_of(n));
        let t = double::half_even(n * 10, size);
        law_half_even(n * 10, size);
        assert(show::speed_text(bytes) == text::pad(show::one_place(t), 6, ' ') + seq![' ']
            + show::unit_name(show::unit_of(n)));
    }
}

/// Rounding to a whole number is off by at most a half, and a half goes up.
pub proof fn law_round(a: nat)
    requires
        (2 * a + double::one()) / (2 * double::one()) <= u64::MAX,
    ensures
        ({
            let n = double::num_round(a);
            let o = double::one();
            &&& (2 * n) * o <= 2 * a + o
            &&& 2 * a + o < (2 * n + 2) * o
        }),
{
    let o = double::one();
    lemma_pow2_pos(1074);
    let n = (2 * a + o) / (2 * o);
    lemma_fundamental_div_mod((2 * a + o) as int, (2 * o) as int);
    lemma_mod_bound((2 * a + o) as int, (2 * o) as int);
    assert((2 * n) * o == (2 * o) * n) by (nonlinear_arith);
    assert((2 * n + 2) * o == (2 * o) * n + 2 * o) by (nonlinear_arith);
}

/// Processor time is shown to the nearest hundredth of a second below an hour, and to
/// the whole second from then on.
pub proof fn law_time_parts(secs: nat)
    ensures
        ({
            let cs = double::num_round(double::num_mul(secs, double::num_of(100)));
            let s = show::time_text(secs);
            &&& cs < 360_000 ==> exists|m: nat, t: nat, h: nat|
                m < 60 && t < 60 && h < 100 && cs == 6000 * m + 100 * t + h && s
                    == #[trigger] minutes_text(m, t, h)
            &&& cs >= 360_000 ==> exists|h: nat, m: nat, t: nat|
                m < 60 && t < 60 && 360_000 * h + 6000 * m + 100 * t <= cs < 360_000 * h + 6000 * m
                    + 100 * t + 100 && s == #[trigger] hours_text(h, m, t)
        }),
{
    let cs = double::num_round(double::num_mul(secs, double::num_of(100)));
    let s = cs / 100;
    if cs < 360_000 {
        assert(s < 3600);
        assert(s / 60 < 60);
        lemma_small_mod(s / 60, 60);
        assert(cs == 6000 * (s / 60) + 100 * (s % 60) + cs % 100);
        assert(show::time_text(secs) =~= minutes_text(s / 60, s % 60, cs % 100));
    } else {
        let h = s / 3600;
        let m = (s / 60) % 60;
        let t = s % 60;
        assert(s >= 3600);
        assert(s == 3600 * h + 60 * m + t) by {
            assert(s == 60 * (s / 60) + t);
            assert((s / 60) == 60 * ((s / 60) / 60) + m);
            assert((s / 60) / 60 == h);
        }
        assert(show::time_text(secs) =~= hours_text(h, m, t));
    }
}

/// Minutes, seconds and hundredths.
pub open spec fn minutes_text(m: nat, s: nat, h: nat) -> Seq<char> {
    show::two(m) + seq![':'] + show::two(s) + seq!['.'] + show::two(h)
}

/// Hours, minutes and seconds.
pub open spec fn hours_text(h: nat, m: nat, s: nat) -> Seq<char> {
    show::two(h) + seq![':'] + show::two(m) + seq![':'] + show::two(s)
}

/// Processor time in whole seconds: minutes and seconds below an hour, with
/// hundredths, and hours, minutes and seconds from then on.
pub proof fn law_time_text(s: nat)
    requires
        s * 100 < SIG,
    ensures
        s < 3600 ==> show::time_text(measuring::whole(s)) == show::two(s / 60) + seq![':']
            + show::two(s % 60) + seq!['.'] + seq!['0', '0'],
        s >= 3600 ==> show::time_text(measuring::whole(s)) == show::two(s / 3600) + seq![':']
            + show::two((s / 60) % 60) + seq![':'] + show::two(s % 60),
{
    let o = double::one();
    lemma_pow2_pos(1074);
    rounding::lemma_whole_exact(s, 1);
    rounding::lemma_whole_exact(100, 1);
    rounding::lemma_whole_exact(s * 100, o);
    assert((s * o) * (100 * o) == ((s * 100) * o) * o) by (nonlinear_arith);
    let v = double::num_mul(s * o, double::num_of(100));
    assert(v == (s * 100) * o);
    let n = s * 100;
    assert(2 * v + o == n * (2 * o) + o) by (nonlinear_arith)
        requires
            v == n * o,
    ;
    lemma_fundamental_div_mod_converse((2 * v + o) as int, (2 * o) as int, n as int, o as int);
    assert(double::num_round(v) == n);
    assert(n / 100 == s && n % 100 == 0);
    if s < 3600 {
        assert(s / 60 < 60);
        lemma_small_mod(s / 60, 60);
        law_two_digits(0);
        assert(show::two(0) =~= seq!['0', '0']);
        assert(show::time_text(measuring::whole(s)) =~= show::two(s / 60) + seq![':'] + show::two(
            s % 60,
        ) + seq!['.'] + seq!['0', '0']);
    }
}

/// A process is shown by its name, with its number in brackets where it is known.
pub proof fn law_process_label(comm: Seq<char>, pid: u32)
    ensures
        show::proc_label(comm, None) == comm,
        ({
            let s = show::proc_label(comm, Some(pid));
            let n = comm.len() as int;
            &&& s.len() >= n + 3
            &&& s.take(n) == comm && s[n] == '(' && s.last() == ')'
            &&& text::as_u32(s.subrange(n + 1, s.len() - 1)) == Some(pid)
        }),
{
    let s = show::proc_label(comm, Some(pid));
    let n = comm.len() as int;
    let d = text::decimal(pid as nat);
    text::lemma_decimal_digits(pid as nat);
    text::law_decimal_reads_back(pid as nat, u32::MAX as nat);
    assert(s.take(n) =~= comm);
    assert(s.subrange(n + 1, s.len() - 1) =~= d);
}

// ── The table ────────────────────────────────────────────────────────────────

/// A rate as shown: whole bytes per second, or that it is not known.
pub open spec fn rate_cell(known: bool, rate: nat) -> Seq<char> {
    if known {
        show::speed_text(double::num_floor(rate) as u64)
    } else {
        "n/a"@
    }
}

/// The cells of a connection stand in the order of its columns, each with its own
/// figure; a dash stands for a name that is not known.
pub proof fn law_connection_cells(row: RowModel)
    requires
        row is Detail,
    ensures
        ({
            let c = row->Detail_0;
            let s = panel::cells(row);
            &&& s.len() == 8
            &&& s[0] == show::proc_label(c.comm, c.pid)
            &&& s[1] == c.proto && s[2] == c.local && s[3] == c.remote
            &&& s[4] == if c.host is Some {
                c.host->0
            } else {
                seq!['-']
            }
            &&& s[5] == if c.service is Some {
                c.service->0
            } else {
                seq!['-']
            }
            &&& s[6] == rate_cell(c.rx_rate is Some, c.rx_rate->0)
            &&& s[7] == rate_cell(c.tx_rate is Some, c.tx_rate->0)
        }),
{
    reveal_strlit("-");
    assert("-"@ =~= seq!['-']);
}

/// The cells of a process stand in the order of its columns, each with its own
/// figure; its rates are not known while none of its connections has any.
pub proof fn law_process_cells(row: RowModel)
    requires
        row is Agg,
    ensures
        ({
            let a = row->Agg_0;
            let s = panel::cells(row);
            &&& s.len() == 10
            &&& s[0] == a.info.user
            &&& s[1] == show::proc_label(a.comm, a.pid)
            &&& s[2] == panel::percent_text(a.info.cpu_pct)
            &&& s[3] == panel::percent_text(a.info.mem_pct)
            &&& s[4] == show::time_text(a.info.time_secs)
            &&& s[5] == text::decimal(a.count)
            &&& s[6] == rate_cell(a.rated, a.rx_rate)
            &&& s[7] == rate_cell(a.rated, a.tx_rate)
            &&& s[8] == rate_cell(true, a.info.disk_read_rate)
            &&& s[9] == rate_cell(true, a.info.disk_write_rate)
        }),
{
}

/// The titles stand over their cells. The one that the order goes by has an arrow,
/// up for ascending and down for descending, and no other has.
pub proof fn law_titles(aggregate: bool, sort_key: SortKey, asc: bool, i: int)
    requires
        0 <= i < rows::columns(aggregate).len(),
    ensures
        ({
            let t = panel::header_texts(aggregate, sort_key, asc);
            let key = rows::columns(aggregate)[i];
            let name = panel::column_title(key);
            &&& t.len() == if aggregate {
                10int
            } else {
                8int
            }
            &&& key != sort_key ==> t[i] == name
            &&& key == sort_key && asc ==> t[i] == name + seq![' ', '▲']
            &&& key == sort_key && !asc ==> t[i] == name + seq![' ', '▼']
        }),
        panel::column_title(SortKey::User) == "USER"@,
        panel::column_title(SortKey::Proc) == "PROC(PID)"@,
        panel::column_title(SortKey::Proto) == "PRO"@,
        panel::column_title(SortKey::Src) == "SRC"@,
        panel::column_title(SortKey::Dst) == "DST"@,
        panel::column_title(SortKey::Host) == "HOST"@,
        panel::column_title(SortKey::Svc) == "SVC"@,
        panel::column_title(SortKey::Cpu) == "CPU%"@,
        panel::column_title(SortKey::Mem) == "MEM%"@,
        panel::column_title(SortKey::Time) == "TIME+"@,
        panel::column_title(SortKey::Conns) == "CONNS"@,
        panel::column_title(SortKey::Rx) == "RX"@,
        panel::column_title(SortKey::Tx) == "TX"@,
        panel::column_title(SortKey::DiskR) == "DISKR"@,
        panel::column_title(SortKey::DiskW) == "DISKW"@,
{
    reveal_strlit(" ▲");
    reveal_strlit(" ▼");
    assert(" ▲"@ =~= seq![' ', '▲']);
    assert(" ▼"@ =~= seq![' ', '▼']);
    rows::lemma_columns_distinct(aggregate);
}

/// The rows in view are those that follow each other from the scroll position, as
/// many as there is room for; every other one is shaded.
pub proof fn law_rows_in_view(
    shown: Seq<PanelRow>,
    all: Seq<RowModel>,
    scroll: int,
    room: int,
    i: int,
)
    requires
        panel::are_shown(shown, all, scroll, room),
        0 <= scroll <= all.len(),
        0 <= room,
    ensures
        scroll + room <= all.len() ==> shown.len() == room,
        scroll + room >= all.len() ==> shown.len() == all.len() - scroll,
        0 <= i < shown.len() ==> text::strings(shown[i].cells@) == panel::cells(all[scroll + i]),
        0 <= i < shown.len() ==> (shown[i].zebra <==> (scroll + i) % 2 == 1),
{
}

/// The title counts: where rows are shown it gives the first and the last one in
/// view, counted from one, and how many there are.
pub proof fn law_range(scroll: int, room: int, len: int)
    requires
        0 <= scroll,
        1 <= room,
        0 <= len,
        len > 0 ==> scroll < len,
        len == 0 ==> scroll == 0,
    ensures
        ({
            let first: nat = if len == 0 {
                0
            } else {
                (scroll + 1) as nat
            };
            let last: nat = if scroll + room <= len {
                (scroll + room) as nat
            } else {
                len as nat
            };
            panel::range_text(scroll, room, len) == " Top Connections "@ + text::decimal(first)
                + seq!['-'] + text::decimal(last) + seq!['/'] + text::decimal(len as nat) + seq![' ']
        }),
{
}

/// The title names the filter while there is one or one is typed, and that processes
/// are shown while they are.
pub proof fn law_title(m: AppModel, scroll: int, room: int, len: int)
    ensures
        ({
            let s = panel::title_text(m, scroll, room, len);
            let help = "↑↓ pg:scroll c:focus a:agg /:filter click hdr/o:sort O:dir"@;
            let range = panel::range_text(scroll, room, len);
            let filter = "filter:\""@ + m.filter + "\" "@;
            let filtered = m.filter.len() > 0 || m.filter_mode;
            &&& !m.aggregate && !filtered ==> s == range + help
            &&& m.aggregate && !filtered ==> s == range + "[agg] "@ + help
            &&& !m.aggregate && filtered ==> s == range + filter + help
            &&& m.aggregate && filtered ==> s == range + "[agg] "@ + filter + help
            &&& panel::empty_text(m) == if m.filter.len() > 0 {
                " no connections match the filter "@
            } else {
                " no active connections "@
            }
        }),
{
    let s = panel::title_text(m, scroll, room, len);
    let help = "↑↓ pg:scroll c:focus a:agg /:filter click hdr/o:sort O:dir"@;
    let range = panel::range_text(scroll, room, len);
    if !m.aggregate && !(m.filter.len() > 0 || m.filter_mode) {
        assert(s =~= range + help);
    }
    if m.aggregate && !(m.filter.len() > 0 || m.filter_mode) {
        assert(s =~= range + "[agg] "@ + help);
    }
    if !m.aggregate && (m.filter.len() > 0 || m.filter_mode) {
        assert(s =~= range + ("filter:\""@ + m.filter + "\" "@) + help);
    }
}

/// The frame and the row of titles take three rows of the panel, and one row is left
/// in any case.
pub proof fn law_room(a: crate::layout::Area)
    ensures
        a.height >= 4 ==> panel::room_for_rows(a) + 3 == a.height,
        a.height < 4 ==> panel::room_for_rows(a) == 1,
{
}

/// The table of connections holds those that the filter keeps, in the order of the
/// column that it is sorted by.
pub proof fn law_table_of_connections(c: ConnMonitor, m: AppModel, i: int, j: int)
    requires
        !m.aggregate,
        c.last@.len() <= usize::MAX,
        0 <= i < j < panel::panel_rows(c, m).len(),
    ensures
        ({
            let r = panel::panel_rows(c, m);
            let key = m.sort_key;
            &&& r.len() == conns::passing(conns::conns(c.last@), m.filter).len()
            &&& r[i] is Detail && r[j] is Detail
            &&& conns::passes(r[i]->Detail_0, m.filter)
            &&& matching::number_column(key) && m.sort_asc ==> matching::shown_number(r[i], key)
                <= matching::shown_number(r[j], key)
            &&& matching::number_column(key) && !m.sort_asc ==> matching::shown_number(r[i], key)
                >= matching::shown_number(r[j], key)
            &&& matching::text_column(key) && m.sort_asc ==> !matching::earlier(
                matching::shown_text(r[j], key),
                matching::shown_text(r[i], key),
            )
            &&& matching::text_column(key) && !m.sort_asc ==> !matching::earlier(
                matching::shown_text(r[i], key),
                matching::shown_text(r[j], key),
            )
        }),
{
    let cs = conns::conns(c.last@);
    let p = |x: conns::ConnModel| conns::passes(x, m.filter);
    let kept = conns::passing(cs, m.filter);
    cs.lemma_filter_len(p);
    assert forall|k: int| 0 <= k < kept.len() implies conns::passes(
        #[trigger] kept[k],
        m.filter,
    ) by {
        cs.lemma_filter_pred(p, k);
    }
    let all = panel::unsorted_rows(c, m.filter, m.aggregate);
    let keys = rows::row_values(all, m.sort_key);
    rank::law_order_exists(keys, m.sort_asc);
    let out = panel::panel_rows(c, m);
    assert(rank::sorts(all, keys, m.sort_asc, out));
    let order = rank::order_for(keys, m.sort_asc);
    assert(out[i] == all[order[i] as int]);
    assert(out[j] == all[order[j] as int]);
    assert(all[order[i] as int] == RowModel::Detail(kept[order[i] as int]));
    assert(all[order[j] as int] == RowModel::Detail(kept[order[j] as int]));
    matching::law_sorted_table(all, m.sort_key, m.sort_asc, out, i, j);
}

/// The table of processes is in the order of the column that it is sorted by.
pub proof fn law_table_of_processes(c: ConnMonitor, m: AppModel, i: int, j: int)
    requires
        m.aggregate,
        c.last@.len() <= usize::MAX,
        0 <= i < j < panel::panel_rows(c, m).len(),
    ensures
        ({
            let r = panel::panel_rows(c, m);
            let key = m.sort_key;
            &&& r[i] is Agg && r[j] is Agg
            &&& matching::process_number_column(key) && m.sort_asc ==> matching::shown_number(
                r[i],
                key,
            ) <= matching::shown_number(r[j], key)
            &&& matching::process_number_column(key) && !m.sort_asc ==> matching::shown_number(
                r[i],
                key,
            ) >= matching::shown_number(r[j], key)
            &&& matching::process_text_column(key) && m.sort_asc ==> !matching::earlier(
                matching::shown_text(r[j], key),
                matching::shown_text(r[i], key),
            )
            &&& matching::process_text_column(key) && !m.sort_asc ==> !matching::earlier(
                matching::shown_text(r[i], key),
                matching::shown_text(r[j], key),
            )
        }),
{
    let cs = conns::conns(c.last@);
    let procs = conns::procs_model(c.procs@);
    let groups = conns::grouped(cs, m.filter, procs, cs.len() as int);
    conns::lemma_groups_bounded(cs, m.filter, procs, cs.len() as int);
    let by_traffic = conns::agg_throughputs(groups);
    rank::law_order_exists(by_traffic, false);
    let first = rank::sorted(groups, by_traffic, false);
    let all = panel::unsorted_rows(c, m.filter, m.aggregate);
    assert(all.len() == first.len() == groups.len());
    let keys = rows::row_values(all, m.sort_key);
    rank::law_order_exists(keys, m.sort_asc);
    let out = panel::panel_rows(c, m);
    assert(rank::sorts(all, keys, m.sort_asc, out));
    let order = rank::order_for(keys, m.sort_asc);
    assert(out[i] == all[order[i] as int]);
    assert(out[j] == all[order[j] as int]);
    assert(all[order[i] as int] == RowModel::Agg(first[order[i] as int]));
    assert(all[order[j] as int] == RowModel::Agg(first[order[j] as int]));
    matching::law_sorted_table(all, m.sort_key, m.sort_asc, out, i, j);
}

} // verus!
