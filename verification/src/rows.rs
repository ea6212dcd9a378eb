//! The rows of the connections table and the columns they are sorted by.

use vstd::prelude::*;

use crate::conns;
use crate::conns::{rate_or_zero, AggModel, AggRow, ConnModel, ConnStat};
use crate::double;
use crate::double::Double;
use crate::rank;
use crate::rank::{order_of, rearrange, SortModel, SortVal};
use crate::show;
use crate::show::proc_sort_label;
use crate::text;

verus! {

/// What the table can be sorted by. The sum of both rates, the order at the
/// start, is no column of its own.
#[derive(Clone, Copy, Debug, PartialEq, Eq, Structural)]
pub enum SortKey {
    /// The sum of both rates.
    Throughput,
    /// Owner of the process.
    User,
    /// Name and number of the process.
    Proc,
    /// Protocol.
    Proto,
    /// Local endpoint.
    Src,
    /// Remote endpoint.
    Dst,
    /// Remote host name.
    Host,
    /// Service name.
    Svc,
    /// Processor usage.
    Cpu,
    /// Memory.
    Mem,
    /// Processor time.
    Time,
    /// Number of connections.
    Conns,
    /// Received bytes per second.
    Rx,
    /// Sent bytes per second.
    Tx,
    /// Bytes read from disk per second.
    DiskR,
    /// Bytes written to disk per second.
    DiskW,
}

/// A row of the table: a connection, or a process with its connections.
pub enum ConnRow {
    /// One connection.
    Detail(ConnStat),
    /// One process.
    Agg(AggRow),
}

/// What a [`ConnRow`] says.
pub enum RowModel {
    /// One connection.
    Detail(ConnModel),
    /// One process.
    Agg(AggModel),
}

impl View for ConnRow {
    type V = RowModel;

    open spec fn view(&self) -> RowModel {
        match *self {
            ConnRow::Detail(c) => RowModel::Detail(c@),
            ConnRow::Agg(a) => RowModel::Agg(a@),
        }
    }
}

/// The models of a vector of rows.
pub open spec fn row_models(v: Seq<ConnRow>) -> Seq<RowModel> {
    v.map_values(|x: ConnRow| x@)
}

/// The columns of the table, from left to right.
pub open spec fn columns(aggregate: bool) -> Seq<SortKey> {
    if aggregate {
        seq![
            SortKey::User,
            SortKey::Proc,
            SortKey::Cpu,
            SortKey::Mem,
            SortKey::Time,
            SortKey::Conns,
            SortKey::Rx,
            SortKey::Tx,
            SortKey::DiskR,
            SortKey::DiskW,
        ]
    } else {
        seq![
            SortKey::Proc,
            SortKey::Proto,
            SortKey::Src,
            SortKey::Dst,
            SortKey::Host,
            SortKey::Svc,
            SortKey::Rx,
            SortKey::Tx,
        ]
    }
}

/// The columns of the table, from left to right.
pub fn sort_order(aggregate: bool) -> (r: Vec<SortKey>)
    ensures
        r@ == columns(aggregate),
{
    if aggregate {
        vec![
            SortKey::User,
            SortKey::Proc,
            SortKey::Cpu,
            SortKey::Mem,
            SortKey::Time,
            SortKey::Conns,
            SortKey::Rx,
            SortKey::Tx,
            SortKey::DiskR,
            SortKey::DiskW,
        ]
    } else {
        vec![
            SortKey::Proc,
            SortKey::Proto,
            SortKey::Src,
            SortKey::Dst,
            SortKey::Host,
            SortKey::Svc,
            SortKey::Rx,
            SortKey::Tx,
        ]
    }
}

/// The column after `key`, the first one following the last. A key that is no
/// column is followed by the first.
pub open spec fn column_after(aggregate: bool, key: SortKey) -> SortKey {
    let order = columns(aggregate);
    if order.contains(key) {
        order[(order.index_of(key) + 1) % order.len() as int]
    } else {
        order[0]
    }
}

/// The column after `key`, the first one following the last.
pub fn next_column(aggregate: bool, key: SortKey) -> (r: SortKey)
    ensures
        r == column_after(aggregate, key),
{
    let order = sort_order(aggregate);
    let n: usize = order.len();
    let mut i: usize = 0;
    while i < n
        invariant
            i <= n == order@.len(),
            n == 10 || n == 8,
            order@ == columns(aggregate),
            forall|j: int| 0 <= j < i ==> order@[j] != key,
        decreases n - i,
    {
        if order[i] == key {
            proof {
                lemma_columns_distinct(aggregate);
                assert(order@.contains(key));
                assert(order@[order@.index_of(key)] == key);
            }
            return order[(i + 1) % n];
        }
        i += 1;
    }
    order[0]
}

/// No column occurs twice.
pub proof fn lemma_columns_distinct(aggregate: bool)
    ensures
        columns(aggregate).no_duplicates(),
        columns(aggregate).len() == (if aggregate {
            10int
        } else {
            8int
        }),
{
}

/// Moving on from column to column visits every column and ends where it began.
pub proof fn law_columns_cycle(aggregate: bool, i: int)
    requires
        0 <= i < columns(aggregate).len(),
    ensures
        column_after(aggregate, columns(aggregate)[i]) == columns(aggregate)[(i + 1) % columns(
            aggregate,
        ).len() as int],
{
    lemma_columns_distinct(aggregate);
    let order = columns(aggregate);
    assert(order.contains(order[i]));
    assert(order[order.index_of(order[i])] == order[i]);
}

/// What a connection is sorted by under `key`.
pub open spec fn detail_value(c: ConnModel, key: SortKey) -> SortModel {
    match key {
        SortKey::Proc => SortModel::Text(show::proc_label(c.comm, c.pid)),
        SortKey::Proto => SortModel::Text(c.proto),
        SortKey::Src => SortModel::Text(c.local),
        SortKey::Dst => SortModel::Text(c.remote),
        SortKey::Host => SortModel::Text(conns::or_empty(c.host)),
        SortKey::Svc => SortModel::Text(conns::or_empty(c.service)),
        SortKey::Rx => SortModel::Num(conns::num_or_zero(c.rx_rate)),
        SortKey::Tx => SortModel::Num(conns::num_or_zero(c.tx_rate)),
        SortKey::Throughput => SortModel::Num(
            double::num_add(conns::num_or_zero(c.rx_rate), conns::num_or_zero(c.tx_rate)),
        ),
        _ => SortModel::Nothing,
    }
}

/// What a process is sorted by under `key`.
pub open spec fn agg_value(a: AggModel, key: SortKey) -> SortModel {
    match key {
        SortKey::User => SortModel::Text(a.info.user),
        SortKey::Proc => SortModel::Text(show::proc_label(a.comm, a.pid)),
        SortKey::Cpu => SortModel::Num(a.info.cpu_pct),
        SortKey::Mem => SortModel::Num(a.info.mem_pct),
        SortKey::Time => SortModel::Num(a.info.time_secs),
        SortKey::Conns => SortModel::Num(double::num_of(a.count)),
        SortKey::Rx => SortModel::Num(a.rx_rate),
        SortKey::Tx => SortModel::Num(a.tx_rate),
        SortKey::DiskR => SortModel::Num(a.info.disk_read_rate),
        SortKey::DiskW => SortModel::Num(a.info.disk_write_rate),
        SortKey::Throughput => SortModel::Num(double::num_add(a.rx_rate, a.tx_rate)),
        _ => SortModel::Nothing,
    }
}

/// What a row is sorted by under `key`.
pub open spec fn row_value(row: RowModel, key: SortKey) -> SortModel {
    match row {
        RowModel::Detail(c) => detail_value(c, key),
        RowModel::Agg(a) => agg_value(a, key),
    }
}

/// What the rows are sorted by under `key`.
pub open spec fn row_values(v: Seq<RowModel>, key: SortKey) -> Seq<SortModel> {
    v.map_values(|x: RowModel| row_value(x, key))
}

fn text_or_empty(o: &Option<String>) -> (r: String)
    ensures
        r@ == conns::or_empty(text::opt_text(*o)),
{
    match o {
        Some(s) => s.clone(),
        None => {
            let r = String::new();
            assert(r@ =~= Seq::<char>::empty());
            r
        },
    }
}

/// What `row` is sorted by under `key`.
pub fn sort_val(row: &ConnRow, key: SortKey) -> (r: SortVal)
    ensures
        r@ == row_value(row@, key),
{
    match row {
        ConnRow::Agg(a) => match key {
            SortKey::User => SortVal::Text(a.user.clone()),
            SortKey::Proc => SortVal::Text(proc_sort_label(a.comm.as_str(), a.pid)),
            SortKey::Cpu => SortVal::Num(a.cpu_pct),
            SortKey::Mem => SortVal::Num(a.mem_pct),
            SortKey::Time => SortVal::Num(a.time_secs),
            SortKey::Conns => SortVal::Num(Double::from_u64(a.count as u64)),
            SortKey::Rx => SortVal::Num(a.rx_rate),
            SortKey::Tx => SortVal::Num(a.tx_rate),
            SortKey::DiskR => SortVal::Num(a.disk_read_rate),
            SortKey::DiskW => SortVal::Num(a.disk_write_rate),
            SortKey::Throughput => SortVal::Num(a.rx_rate.plus(a.tx_rate)),
            _ => SortVal::Nothing,
        },
        ConnRow::Detail(c) => match key {
            SortKey::Proc => SortVal::Text(proc_sort_label(c.comm.as_str(), c.pid)),
            SortKey::Proto => SortVal::Text(c.proto.clone()),
            SortKey::Src => SortVal::Text(c.local.clone()),
            SortKey::Dst => SortVal::Text(c.remote.clone()),
            SortKey::Host => SortVal::Text(text_or_empty(&c.host)),
            SortKey::Svc => SortVal::Text(text_or_empty(&c.service)),
            SortKey::Rx => SortVal::Num(rate_or_zero(c.rx_rate)),
            SortKey::Tx => SortVal::Num(rate_or_zero(c.tx_rate)),
            SortKey::Throughput => SortVal::Num(
                rate_or_zero(c.rx_rate).plus(rate_or_zero(c.tx_rate)),
            ),
            _ => SortVal::Nothing,
        },
    }
}

/// Sorts the rows by `key`, ascending or descending. Rows with equal values stay
/// in their order.
pub fn sort_rows(view: &mut Vec<ConnRow>, key: SortKey, asc: bool)
    ensures
        rank::sorts(
            old(view)@,
            row_values(row_models(old(view)@), key),
            asc,
            final(view)@,
        ),
        rank::sorts(
            row_models(old(view)@),
            row_values(row_models(old(view)@), key),
            asc,
            row_models(final(view)@),
        ),
{
    let ghost before = view@;
    let mut keys: Vec<SortVal> = Vec::new();
    let mut i: usize = 0;
    while i < view.len()
        invariant
            i <= view@.len(),
            view@ == before,
            keys@.len() == i,
            forall|j: int| 0 <= j < i ==> (#[trigger] keys@[j])@ == row_value(before[j]@, key),
        decreases view@.len() - i,
    {
        keys.push(sort_val(&view[i], key));
        i += 1;
    }
    assert(rank::models(keys@) =~= row_values(row_models(before), key));
    let order = order_of(&keys, asc);
    let mut all: Vec<ConnRow> = Vec::new();
    std::mem::swap(&mut all, view);
    let mut sorted = rearrange(all, &order, Ghost(rank::models(keys@)), Ghost(asc));
    std::mem::swap(&mut sorted, view);
    assert(row_models(view@) =~= rank::permuted(row_models(before), order@));
}

} // verus!
