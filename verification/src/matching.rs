//! What a filter keeps, and what a sorted table shows.

use vstd::prelude::*;

use crate::conns;
use crate::conns::ConnModel;
use crate::double;
use crate::rank;
use crate::reading;
use crate::rounding;
use crate::rows;
use crate::rows::{RowModel, SortKey};
use crate::show;
use crate::text;

verus! {

// ── Filter ───────────────────────────────────────────────────────────────────

/// The texts of a connection that a filter is looked for in.
pub open spec fn searched(c: ConnModel) -> Seq<Seq<char>> {
    seq![
        c.comm,
        if c.pid is Some {
            text::decimal(c.pid->0 as nat)
        } else {
            Seq::empty()
        },
        c.local,
        c.remote,
        if c.host is Some {
            c.host->0
        } else {
            Seq::empty()
        },
        if c.service is Some {
            c.service->0
        } else {
            Seq::empty()
        },
    ]
}

/// Whether `f` stands in `s` at `k`, letters being compared without their case.
pub open spec fn found_at(s: Seq<char>, f: Seq<char>, k: int) -> bool {
    &&& 0 <= k
    &&& k + f.len() <= s.len()
    &&& forall|i: int| 0 <= i < f.len() ==> reading::same_letter(#[trigger] f[i], s[k + i])
}

/// Whether `f` stands anywhere in `s`, letters being compared without their case.
pub open spec fn found_in(s: Seq<char>, f: Seq<char>) -> bool {
    exists|k: int| #[trigger] found_at(s, f, k)
}

proof fn lemma_mentions(s: Seq<char>, f: Seq<char>)
    ensures
        conns::mentions(s, f) <==> found_in(s, f),
{
    let ls = text::lower(s);
    let lf = text::lower(f);
    reading::law_find(ls, lf);
    assert forall|k: int| #[trigger] found_at(s, f, k) implies reading::stands_at(ls, lf, k) by {
        assert forall|i: int| 0 <= i < lf.len() implies #[trigger] lf[i] == ls[k + i] by {
            assert(reading::same_letter(f[i], s[k + i]));
            reading::law_lower(f[i], s[k + i]);
        }
    }
    if conns::mentions(s, f) {
        let k = text::find(ls, lf)->0;
        assert forall|i: int| 0 <= i < f.len() implies reading::same_letter(
            #[trigger] f[i],
            s[k + i],
        ) by {
            assert(lf[i] == ls[k + i]);
            reading::law_lower(f[i], s[k + i]);
        }
        assert(found_at(s, f, k));
    }
}

/// A filter keeps a connection just where it is empty or stands, whatever the case
/// of its letters, somewhere in one of the texts: the name or the number of the
/// process, an endpoint, the host or the service.
pub proof fn law_filter(c: ConnModel, filter: Seq<char>)
    ensures
        conns::passes(c, filter) <==> filter.len() == 0 || exists|j: int|
            0 <= j < searched(c).len() && found_in(#[trigger] searched(c)[j], filter),
{
    let t = searched(c);
    lemma_mentions(t[0], filter);
    lemma_mentions(t[1], filter);
    lemma_mentions(t[2], filter);
    lemma_mentions(t[3], filter);
    lemma_mentions(t[4], filter);
    lemma_mentions(t[5], filter);
}

/// A longer filter keeps no more than a part of it.
pub proof fn law_filter_narrows(c: ConnModel, a: Seq<char>, part: Seq<char>, b: Seq<char>)
    requires
        conns::passes(c, a + part + b),
    ensures
        conns::passes(c, part),
{
    let filter = a + part + b;
    law_filter(c, filter);
    law_filter(c, part);
    if part.len() > 0 {
        let j = choose|j: int|
            0 <= j < searched(c).len() && found_in(#[trigger] searched(c)[j], filter);
        let s = searched(c)[j];
        let k = choose|k: int| #[trigger] found_at(s, filter, k);
        assert forall|i: int| 0 <= i < part.len() implies reading::same_letter(
            #[trigger] part[i],
            s[k + a.len() + i],
        ) by {
            assert(filter[a.len() + i] == part[i]);
            assert(reading::same_letter(filter[a.len() + i], s[k + (a.len() + i)]));
        }
        assert(found_at(s, part, k + a.len()));
        assert(found_in(s, part));
    }
}

/// What a filter keeps of a list are the connections in which it is found, in their
/// order.
pub proof fn law_filtered_list(cs: Seq<ConnModel>, filter: Seq<char>, c: ConnModel)
    ensures
        conns::passing(Seq::empty(), filter).len() == 0,
        conns::passes(c, filter) ==> conns::passing(cs.push(c), filter) == conns::passing(
            cs,
            filter,
        ).push(c),
        !conns::passes(c, filter) ==> conns::passing(cs.push(c), filter) == conns::passing(
            cs,
            filter,
        ),
{
    let p = |x: ConnModel| conns::passes(x, filter);
    reveal(Seq::filter);
    assert(cs.push(c).drop_last() =~= cs);
    assert(Seq::<ConnModel>::empty().filter(p).len() == 0);
}

// ── Order ────────────────────────────────────────────────────────────────────

/// Whether `a` comes before `b` as in a dictionary that goes by the numbers of the
/// characters: at the first place where they differ, or by being its front.
pub open spec fn earlier(a: Seq<char>, b: Seq<char>) -> bool {
    exists|k: int| #[trigger] differ_at(a, b, k)
}

/// Whether the texts agree before `k`, and `a` is the smaller there or ends.
pub open spec fn differ_at(a: Seq<char>, b: Seq<char>, k: int) -> bool {
    &&& 0 <= k < b.len()
    &&& k <= a.len()
    &&& forall|i: int| 0 <= i < k ==> #[trigger] a[i] == b[i]
    &&& k < a.len() ==> a[k] < b[k]
}

/// Texts are ordered as in a dictionary.
pub proof fn law_text_order(a: Seq<char>, b: Seq<char>)
    ensures
        rank::text_before(a, b) <==> earlier(a, b),
    decreases b.len(),
{
    if b.len() == 0 {
    } else if a.len() == 0 {
        assert(differ_at(a, b, 0));
    } else if a[0] != b[0] {
        if a[0] < b[0] {
            assert(differ_at(a, b, 0));
        }
        if earlier(a, b) {
            let k = choose|k: int| #[trigger] differ_at(a, b, k);
            if k > 0 {
                assert(a[0] == b[0]);
            }
        }
    } else {
        let x = a.drop_first();
        let y = b.drop_first();
        law_text_order(x, y);
        if earlier(x, y) {
            let k = choose|k: int| #[trigger] differ_at(x, y, k);
            assert forall|i: int| 0 <= i < k + 1 implies #[trigger] a[i] == b[i] by {
                if i > 0 {
                    assert(x[i - 1] == y[i - 1]);
                }
            }
            assert(differ_at(a, b, k + 1));
        }
        if earlier(a, b) {
            let k = choose|k: int| #[trigger] differ_at(a, b, k);
            assert(k > 0);
            assert forall|i: int| 0 <= i < k - 1 implies #[trigger] x[i] == y[i] by {
                assert(a[i + 1] == b[i + 1]);
            }
            assert(differ_at(x, y, k - 1));
        }
    }
}

/// The number in a row's column, where the column shows one: zero where the cell is
/// empty.
pub open spec fn shown_number(row: RowModel, key: SortKey) -> nat {
    match row {
        RowModel::Detail(c) => {
            let rx = if c.rx_rate is Some {
                c.rx_rate->0
            } else {
                0
            };
            let tx = if c.tx_rate is Some {
                c.tx_rate->0
            } else {
                0
            };
            if key == SortKey::Rx {
                rx
            } else if key == SortKey::Tx {
                tx
            } else {
                double::num_add(rx, tx)
            }
        },
        RowModel::Agg(a) => if key == SortKey::Cpu {
            a.info.cpu_pct
        } else if key == SortKey::Mem {
            a.info.mem_pct
        } else if key == SortKey::Time {
            a.info.time_secs
        } else if key == SortKey::Conns {
            double::num_of(a.count)
        } else if key == SortKey::Rx {
            a.rx_rate
        } else if key == SortKey::Tx {
            a.tx_rate
        } else if key == SortKey::DiskR {
            a.info.disk_read_rate
        } else if key == SortKey::DiskW {
            a.info.disk_write_rate
        } else {
            double::num_add(a.rx_rate, a.tx_rate)
        },
    }
}

/// The text in a row's column, where the column shows one.
pub open spec fn shown_text(row: RowModel, key: SortKey) -> Seq<char> {
    match row {
        RowModel::Detail(c) => if key == SortKey::Proc {
            show::proc_label(c.comm, c.pid)
        } else if key == SortKey::Proto {
            c.proto
        } else if key == SortKey::Src {
            c.local
        } else if key == SortKey::Dst {
            c.remote
        } else if key == SortKey::Host {
            if c.host is Some {
                c.host->0
            } else {
                Seq::empty()
            }
        } else {
            if c.service is Some {
                c.service->0
            } else {
                Seq::empty()
            }
        },
        RowModel::Agg(a) => if key == SortKey::User {
            a.info.user
        } else {
            show::proc_label(a.comm, a.pid)
        },
    }
}

/// Whether the column shows texts in the table of connections.
pub open spec fn text_column(key: SortKey) -> bool {
    key == SortKey::Proc || key == SortKey::Proto || key == SortKey::Src || key == SortKey::Dst
        || key == SortKey::Host || key == SortKey::Svc
}

/// Whether the column shows numbers in the table of connections.
pub open spec fn number_column(key: SortKey) -> bool {
    key == SortKey::Rx || key == SortKey::Tx || key == SortKey::Throughput
}

/// Whether the column shows texts in the table of processes.
pub open spec fn process_text_column(key: SortKey) -> bool {
    key == SortKey::User || key == SortKey::Proc
}

/// Whether the column shows numbers in the table of processes.
pub open spec fn process_number_column(key: SortKey) -> bool {
    key == SortKey::Cpu || key == SortKey::Mem || key == SortKey::Time || key == SortKey::Conns
        || key == SortKey::Rx || key == SortKey::Tx || key == SortKey::DiskR || key
        == SortKey::DiskW || key == SortKey::Throughput
}

/// A sorted table is in the order of the column that it is sorted by, ascending or
/// descending, as the cells of that column are: numbers by size, texts as in a
/// dictionary.
pub proof fn law_sorted_table(
    table: Seq<RowModel>,
    key: SortKey,
    asc: bool,
    out: Seq<RowModel>,
    i: int,
    j: int,
)
    requires
        rank::sorts(table, rows::row_values(table, key), asc, out),
        0 <= i < j < out.len(),
    ensures
        out.len() == table.len(),
        out[i] is Detail && out[j] is Detail && number_column(key) ==> (if asc {
            shown_number(out[i], key) <= shown_number(out[j], key)
        } else {
            shown_number(out[i], key) >= shown_number(out[j], key)
        }),
        out[i] is Agg && out[j] is Agg && process_number_column(key) ==> (if asc {
            shown_number(out[i], key) <= shown_number(out[j], key)
        } else {
            shown_number(out[i], key) >= shown_number(out[j], key)
        }),
        out[i] is Detail && out[j] is Detail && text_column(key) ==> (if asc {
            !earlier(shown_text(out[j], key), shown_text(out[i], key))
        } else {
            !earlier(shown_text(out[i], key), shown_text(out[j], key))
        }),
        out[i] is Agg && out[j] is Agg && process_text_column(key) ==> (if asc {
            !earlier(shown_text(out[j], key), shown_text(out[i], key))
        } else {
            !earlier(shown_text(out[i], key), shown_text(out[j], key))
        }),
{
    let keys = rows::row_values(table, key);
    let order = rank::order_for(keys, asc);
    let a = order[i] as int;
    let b = order[j] as int;
    assert(rank::precedes(keys, asc, a, b));
    assert(out[i] == table[a] && out[j] == table[b]);
    assert(keys[a] == rows::row_value(out[i], key));
    assert(keys[b] == rows::row_value(out[j], key));
    law_text_order(shown_text(out[i], key), shown_text(out[j], key));
    law_text_order(shown_text(out[j], key), shown_text(out[i], key));
    rank::lemma_text_total(shown_text(out[i], key), shown_text(out[j], key));
}

/// More connections sort as more.
pub proof fn law_connection_counts(a: nat, b: nat)
    requires
        a < b < double::SIG,
    ensures
        double::num_of(a) < double::num_of(b),
{
    rounding::lemma_whole_exact(a, 1);
    rounding::lemma_whole_exact(b, 1);
    vstd::arithmetic::power2::lemma_pow2_pos(1074);
    let o = double::one();
    assert(a * o < b * o) by (nonlinear_arith)
        requires
            a < b,
            o > 0,
    ;
}

/// Rows that show the same in the column keep their order.
pub proof fn law_ties_keep_order(
    table: Seq<RowModel>,
    key: SortKey,
    asc: bool,
    out: Seq<RowModel>,
    from: Seq<usize>,
)
    requires
        rank::sorts(table, rows::row_values(table, key), asc, out),
        from == rank::order_for(rows::row_values(table, key), asc),
    ensures
        from.len() == table.len(),
        forall|i: int|
            0 <= i < from.len() ==> 0 <= #[trigger] from[i] < table.len() && out[i]
                == table[from[i] as int],
        forall|i: int, j: int|
            0 <= i < j < from.len() && rows::row_value(out[i], key) == rows::row_value(out[j], key)
                ==> #[trigger] from[i] < #[trigger] from[j],
        forall|k: usize| k < table.len() ==> #[trigger] from.contains(k),
{
    let keys = rows::row_values(table, key);
    assert forall|i: int, j: int|
        0 <= i < j < from.len() && rows::row_value(out[i], key) == rows::row_value(
            out[j],
            key,
        ) implies #[trigger] from[i] < #[trigger] from[j] by {
        assert(rank::precedes(keys, asc, from[i] as int, from[j] as int));
        assert(out[i] == table[from[i] as int] && out[j] == table[from[j] as int]);
        let v = rows::row_value(out[i], key);
        if v is Text {
            rank::lemma_text_total(v->Text_0, v->Text_0);
        }
        assert(!rank::before(v, v));
    }
}

} // verus!
