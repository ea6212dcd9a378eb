//! Stable ordering of rows by a sort value.

use vstd::prelude::*;

use crate::double::Double;
use crate::text::chars_of;

verus! {

/// What a row is sorted by. `Nothing` stands before every text, and every text
/// before every number.
pub enum SortVal {
    /// The column does not apply to the row.
    Nothing,
    /// Texts are ordered by their code points.
    Text(String),
    /// Numbers are ordered by size.
    Num(Double),
}

/// What a [`SortVal`] says.
pub enum SortModel {
    /// The column does not apply.
    Nothing,
    /// A text.
    Text(Seq<char>),
    /// A number.
    Num(nat),
}

impl View for SortVal {
    type V = SortModel;

    open spec fn view(&self) -> SortModel {
        match *self {
            SortVal::Nothing => SortModel::Nothing,
            SortVal::Text(s) => SortModel::Text(s@),
            SortVal::Num(d) => SortModel::Num(d@),
        }
    }
}

/// Whether text `a` stands before text `b`.
pub open spec fn text_before(a: Seq<char>, b: Seq<char>) -> bool
    decreases b.len(),
{
    if b.len() == 0 {
        false
    } else if a.len() == 0 {
        true
    } else if a[0] != b[0] {
        a[0] < b[0]
    } else {
        text_before(a.drop_first(), b.drop_first())
    }
}

/// Whether `a` stands before `b`.
pub open spec fn before(a: SortModel, b: SortModel) -> bool {
    match (a, b) {
        (_, SortModel::Nothing) => false,
        (SortModel::Nothing, _) => true,
        (SortModel::Text(x), SortModel::Text(y)) => text_before(x, y),
        (SortModel::Num(x), SortModel::Num(y)) => x < y,
        (SortModel::Text(_), SortModel::Num(_)) => true,
        (SortModel::Num(_), SortModel::Text(_)) => false,
    }
}

/// Whether the row with number `i` comes before the row with number `j`: by its
/// value in the wanted direction, and rows with equal values in the order of
/// their numbers.
pub open spec fn precedes(keys: Seq<SortModel>, asc: bool, i: int, j: int) -> bool {
    let a = keys[i];
    let b = keys[j];
    if before(a, b) {
        asc
    } else if before(b, a) {
        !asc
    } else {
        i < j
    }
}

/// Whether `order` lists the row numbers in the sorted order.
pub open spec fn is_order(keys: Seq<SortModel>, asc: bool, order: Seq<usize>) -> bool {
    arranged(keys, asc, order, 0, keys.len() as int)
}

/// Whether `s` lists the numbers from `lo` up to `hi` in the sorted order.
pub open spec fn arranged(
    keys: Seq<SortModel>,
    asc: bool,
    s: Seq<usize>,
    lo: int,
    hi: int,
) -> bool {
    &&& s.len() == hi - lo
    &&& forall|i: int| 0 <= i < s.len() ==> lo <= #[trigger] s[i] < hi
    &&& forall|x: usize| lo <= x < hi ==> s.contains(x)
    &&& forall|i: int, j: int|
        0 <= i < j < s.len() ==> precedes(keys, asc, #[trigger] s[i] as int, #[trigger] s[j] as int)
}

/// The models of a vector of sort values.
pub open spec fn models(v: Seq<SortVal>) -> Seq<SortModel> {
    v.map_values(|x: SortVal| x@)
}

// ── The order is total ───────────────────────────────────────────────────────

/// No text stands before itself, and two texts of which neither stands before
/// the other are the same.
pub proof fn lemma_text_total(a: Seq<char>, b: Seq<char>)
    ensures
        a == b ==> !text_before(a, b),
        !(text_before(a, b) && text_before(b, a)),
        text_before(a, b) || text_before(b, a) || a == b,
    decreases a.len() + b.len(),
{
    if a.len() > 0 && b.len() > 0 {
        if a[0] == b[0] {
            lemma_text_total(a.drop_first(), b.drop_first());
            if a.drop_first() == b.drop_first() {
                assert(a =~= seq![a[0]] + a.drop_first());
                assert(b =~= seq![b[0]] + b.drop_first());
            }
        }
    } else if a.len() == 0 && b.len() == 0 {
        assert(a =~= b);
    }
}

proof fn lemma_text_chain(a: Seq<char>, b: Seq<char>, c: Seq<char>)
    requires
        text_before(a, b),
        text_before(b, c),
    ensures
        text_before(a, c),
    decreases c.len(),
{
    if a.len() > 0 && b.len() > 0 && c.len() > 0 && a[0] == b[0] && b[0] == c[0] {
        lemma_text_chain(a.drop_first(), b.drop_first(), c.drop_first());
    }
}

proof fn lemma_before_total(a: SortModel, b: SortModel)
    ensures
        !(before(a, b) && before(b, a)),
        before(a, b) || before(b, a) || a == b,
        a == b ==> !before(a, b),
{
    match (a, b) {
        (SortModel::Text(x), SortModel::Text(y)) => {
            lemma_text_total(x, y);
        },
        _ => {},
    }
}

proof fn lemma_before_chain(a: SortModel, b: SortModel, c: SortModel)
    requires
        before(a, b),
        before(b, c),
    ensures
        before(a, c),
{
    match (a, b, c) {
        (SortModel::Text(x), SortModel::Text(y), SortModel::Text(z)) => {
            lemma_text_chain(x, y, z);
        },
        _ => {},
    }
}

proof fn lemma_precedes_chain(keys: Seq<SortModel>, asc: bool, i: int, j: int, k: int)
    requires
        precedes(keys, asc, i, j),
        precedes(keys, asc, j, k),
    ensures
        precedes(keys, asc, i, k),
{
    let a = keys[i];
    let b = keys[j];
    let c = keys[k];
    lemma_before_total(a, b);
    lemma_before_total(b, c);
    lemma_before_total(a, c);
    if before(a, b) && before(b, c) {
        lemma_before_chain(a, b, c);
    }
    if before(b, a) && before(c, b) {
        lemma_before_chain(c, b, a);
    }
}

proof fn lemma_precedes_total(keys: Seq<SortModel>, asc: bool, i: int, j: int)
    requires
        i != j,
    ensures
        precedes(keys, asc, i, j) || precedes(keys, asc, j, i),
        !(precedes(keys, asc, i, j) && precedes(keys, asc, j, i)),
{
    lemma_before_total(keys[i], keys[j]);
}

// ── Sorting ──────────────────────────────────────────────────────────────────

fn text_less(a: &str, b: &str) -> (r: bool)
    ensures
        r == text_before(a@, b@),
{
    let x = chars_of(a);
    let y = chars_of(b);
    let mut i: usize = 0;
    assert(x@.skip(0) =~= x@ && y@.skip(0) =~= y@);
    while i < x.len() && i < y.len()
        invariant
            x@ == a@,
            y@ == b@,
            i <= x@.len(),
            i <= y@.len(),
            text_before(x@, y@) == text_before(x@.skip(i as int), y@.skip(i as int)),
        decreases x@.len() - i,
    {
        assert(x@.skip(i as int)[0] == x@[i as int]);
        assert(y@.skip(i as int)[0] == y@[i as int]);
        if x[i] != y[i] {
            return x[i] < y[i];
        }
        assert(x@.skip(i as int).drop_first() =~= x@.skip(i + 1));
        assert(y@.skip(i as int).drop_first() =~= y@.skip(i + 1));
        i += 1;
    }
    x.len() == i && y.len() > i
}

impl SortVal {
    /// Whether this value stands before `other`.
    pub fn is_before(&self, other: &SortVal) -> (r: bool)
        ensures
            r == before(self@, other@),
    {
        match (self, other) {
            (_, SortVal::Nothing) => false,
            (SortVal::Nothing, _) => true,
            (SortVal::Text(x), SortVal::Text(y)) => text_less(x.as_str(), y.as_str()),
            (SortVal::Num(x), SortVal::Num(y)) => !y.le(*x),
            (SortVal::Text(_), SortVal::Num(_)) => true,
            (SortVal::Num(_), SortVal::Text(_)) => false,
        }
    }
}

fn goes_first(keys: &Vec<SortVal>, asc: bool, i: usize, j: usize) -> (r: bool)
    requires
        i < keys@.len(),
        j < keys@.len(),
    ensures
        r == precedes(models(keys@), asc, i as int, j as int),
{
    assert(models(keys@)[i as int] == keys@[i as int]@);
    assert(models(keys@)[j as int] == keys@[j as int]@);
    if keys[i].is_before(&keys[j]) {
        asc
    } else if keys[j].is_before(&keys[i]) {
        !asc
    } else {
        i < j
    }
}

fn merge(
    keys: &Vec<SortVal>,
    asc: bool,
    a: &Vec<usize>,
    b: &Vec<usize>,
    Ghost(lo): Ghost<int>,
    Ghost(mid): Ghost<int>,
    Ghost(hi): Ghost<int>,
) -> (r: Vec<usize>)
    requires
        0 <= lo <= mid <= hi <= keys@.len(),
        arranged(models(keys@), asc, a@, lo, mid),
        arranged(models(keys@), asc, b@, mid, hi),
    ensures
        arranged(models(keys@), asc, r@, lo, hi),
{
    let ghost ks = models(keys@);
    let mut r: Vec<usize> = Vec::new();
    let mut i: usize = 0;
    let mut j: usize = 0;
    while i < a.len() || j < b.len()
        invariant
            ks == models(keys@),
            0 <= lo <= mid <= hi <= keys@.len(),
            arranged(ks, asc, a@, lo, mid),
            arranged(ks, asc, b@, mid, hi),
            i <= a@.len(),
            j <= b@.len(),
            r@.len() == i + j,
            forall|k: int| 0 <= k < r@.len() ==> lo <= #[trigger] r@[k] < hi,
            forall|k: int| 0 <= k < i ==> r@.contains(#[trigger] a@[k]),
            forall|k: int| 0 <= k < j ==> r@.contains(#[trigger] b@[k]),
            forall|x: int, y: int|
                0 <= x < y < r@.len() ==> precedes(
                    ks,
                    asc,
                    #[trigger] r@[x] as int,
                    #[trigger] r@[y] as int,
                ),
            forall|x: int, k: int|
                0 <= x < r@.len() && i <= k < a@.len() ==> precedes(
                    ks,
                    asc,
                    #[trigger] r@[x] as int,
                    #[trigger] a@[k] as int,
                ),
            forall|x: int, k: int|
                0 <= x < r@.len() && j <= k < b@.len() ==> precedes(
                    ks,
                    asc,
                    #[trigger] r@[x] as int,
                    #[trigger] b@[k] as int,
                ),
        decreases a@.len() - i + b@.len() - j,
    {
        let ghost was = r@;
        let take_a: bool = if i >= a.len() {
            false
        } else if j >= b.len() {
            true
        } else {
            goes_first(keys, asc, a[i], b[j])
        };
        if take_a {
            let x: usize = a[i];
            r.push(x);
            proof {
                assert forall|k: int| j <= k < b@.len() implies precedes(
                    ks,
                    asc,
                    x as int,
                    #[trigger] b@[k] as int,
                ) by {
                    if k > j {
                        lemma_precedes_chain(ks, asc, x as int, b@[j as int] as int, b@[k] as int);
                    }
                }
                assert forall|k: int| 0 <= k < j implies r@.contains(#[trigger] b@[k]) by {
                    let m = choose|m: int| 0 <= m < was.len() && was[m] == b@[k];
                    assert(r@[m] == b@[k]);
                }
                assert forall|k: int| 0 <= k < i + 1 implies r@.contains(#[trigger] a@[k]) by {
                    if k < i {
                        let m = choose|m: int| 0 <= m < was.len() && was[m] == a@[k];
                        assert(r@[m] == a@[k]);
                    } else {
                        assert(r@[was.len() as int] == a@[k]);
                    }
                }
            }
            i += 1;
        } else {
            let x: usize = b[j];
            r.push(x);
            proof {
                assert forall|k: int| i <= k < a@.len() implies precedes(
                    ks,
                    asc,
                    x as int,
                    #[trigger] a@[k] as int,
                ) by {
                    lemma_precedes_total(ks, asc, x as int, a@[i as int] as int);
                    if k > i {
                        lemma_precedes_chain(ks, asc, x as int, a@[i as int] as int, a@[k] as int);
                    }
                }
                assert forall|k: int| 0 <= k < i implies r@.contains(#[trigger] a@[k]) by {
                    let m = choose|m: int| 0 <= m < was.len() && was[m] == a@[k];
                    assert(r@[m] == a@[k]);
                }
                assert forall|k: int| 0 <= k < j + 1 implies r@.contains(#[trigger] b@[k]) by {
                    if k < j {
                        let m = choose|m: int| 0 <= m < was.len() && was[m] == b@[k];
                        assert(r@[m] == b@[k]);
                    } else {
                        assert(r@[was.len() as int] == b@[k]);
                    }
                }
            }
            j += 1;
        }
    }
    proof {
        assert forall|x: usize| lo <= x < hi implies r@.contains(x) by {
            if x < mid {
                assert(a@.contains(x));
                let k = choose|k: int| 0 <= k < a@.len() && a@[k] == x;
                assert(r@.contains(a@[k]));
            } else {
                assert(b@.contains(x));
                let k = choose|k: int| 0 <= k < b@.len() && b@[k] == x;
                assert(r@.contains(b@[k]));
            }
        }
    }
    r
}

fn order_range(keys: &Vec<SortVal>, asc: bool, lo: usize, hi: usize) -> (r: Vec<usize>)
    requires
        lo <= hi <= keys@.len(),
    ensures
        arranged(models(keys@), asc, r@, lo as int, hi as int),
    decreases hi - lo,
{
    let mut r: Vec<usize> = Vec::new();
    if hi - lo == 0 {
        return r;
    }
    if hi - lo == 1 {
        r.push(lo);
        assert(r@[0] == lo);
        return r;
    }
    let mid: usize = lo + (hi - lo) / 2;
    let a = order_range(keys, asc, lo, mid);
    let b = order_range(keys, asc, mid, hi);
    merge(keys, asc, &a, &b, Ghost(lo as int), Ghost(mid as int), Ghost(hi as int))
}

/// The row numbers in the sorted order.
pub fn order_of(keys: &Vec<SortVal>, asc: bool) -> (r: Vec<usize>)
    ensures
        is_order(models(keys@), asc, r@),
        r@ == order_for(models(keys@), asc),
{
    assert(models(keys@).len() == keys@.len());
    let r = order_range(keys, asc, 0, keys.len());
    proof {
        lemma_order_for(models(keys@), asc, r@);
    }
    r
}

/// The sorted order.
pub open spec fn order_for(keys: Seq<SortModel>, asc: bool) -> Seq<usize> {
    choose|order: Seq<usize>| is_order(keys, asc, order)
}

/// `rows` sorted by `keys`: ascending or descending, rows with equal keys staying
/// in their order.
pub open spec fn sorted<T>(rows: Seq<T>, keys: Seq<SortModel>, asc: bool) -> Seq<T> {
    permuted(rows, order_for(keys, asc))
}

/// Whether `out` is `rows` sorted by `keys`.
pub open spec fn sorts<T>(rows: Seq<T>, keys: Seq<SortModel>, asc: bool, out: Seq<T>) -> bool {
    is_order(keys, asc, order_for(keys, asc)) && out == sorted(rows, keys, asc)
}

proof fn lemma_order_for(keys: Seq<SortModel>, asc: bool, order: Seq<usize>)
    requires
        is_order(keys, asc, order),
    ensures
        order == order_for(keys, asc),
{
    law_order_unique(keys, asc, order, order_for(keys, asc));
}

/// `rows` rearranged to `order`.
pub open spec fn permuted<T>(rows: Seq<T>, order: Seq<usize>) -> Seq<T> {
    order.map_values(|i: usize| rows[i as int])
}

/// Rearranges `rows` to `order`.
pub(crate) fn rearrange<T>(
    rows: Vec<T>,
    order: &Vec<usize>,
    Ghost(keys): Ghost<Seq<SortModel>>,
    Ghost(asc): Ghost<bool>,
) -> (r: Vec<T>)
    requires
        is_order(keys, asc, order@),
        keys.len() == rows@.len(),
    ensures
        r@ == permuted(rows@, order@),
{
    let ghost all = rows@;
    let mut slots: Vec<Option<T>> = Vec::new();
    let mut rest = rows;
    let mut stack: Vec<T> = Vec::new();
    while rest.len() > 0
        invariant
            rest@.len() + stack@.len() == all.len(),
            forall|i: int| 0 <= i < rest@.len() ==> rest@[i] == all[i],
            forall|i: int|
                0 <= i < stack@.len() ==> #[trigger] stack@[i] == all[all.len() - 1 - i],
        decreases rest@.len(),
    {
        let x = rest.pop().unwrap();
        stack.push(x);
    }
    while stack.len() > 0
        invariant
            slots@.len() + stack@.len() == all.len(),
            forall|i: int|
                0 <= i < stack@.len() ==> #[trigger] stack@[i] == all[all.len() - 1 - i],
            forall|i: int| 0 <= i < slots@.len() ==> #[trigger] slots@[i] == Some(all[i]),
        decreases stack@.len(),
    {
        let x = stack.pop().unwrap();
        slots.push(Some(x));
    }
    let mut r: Vec<T> = Vec::new();
    let mut k: usize = 0;
    while k < order.len()
        invariant
            is_order(keys, asc, order@),
            keys.len() == all.len(),
            slots@.len() == all.len(),
            k <= order@.len(),
            r@.len() == k,
            forall|i: int| 0 <= i < k ==> #[trigger] r@[i] == all[order@[i] as int],
            forall|i: int|
                k <= i < order@.len() ==> slots@[#[trigger] order@[i] as int] == Some(
                    all[order@[i] as int],
                ),
        decreases order@.len() - k,
    {
        let at: usize = order[k];
        let mut hole: Option<T> = None;
        let ghost held = slots@;
        std::mem::swap(&mut hole, &mut slots[at]);
        r.push(hole.unwrap());
        proof {
            assert forall|i: int| k + 1 <= i < order@.len() implies slots@[#[trigger] order@[i] as int]
                == Some(all[order@[i] as int]) by {
                assert(precedes(keys, asc, order@[k as int] as int, order@[i] as int));
                if order@[i] == at {
                    lemma_before_total(keys[at as int], keys[at as int]);
                }
                assert(held[order@[i] as int] == Some(all[order@[i] as int]));
            }
        }
        k += 1;
    }
    assert(r@ =~= permuted(all, order@));
    r
}

// ── Laws ─────────────────────────────────────────────────────────────────────

/// There is a sorted order for all keys.
pub proof fn law_order_exists(keys: Seq<SortModel>, asc: bool)
    requires
        keys.len() <= usize::MAX,
    ensures
        is_order(keys, asc, order_for(keys, asc)),
{
    let s = lemma_arrange(keys, asc, keys.len() as int);
    assert(is_order(keys, asc, s));
}

proof fn lemma_arrange(keys: Seq<SortModel>, asc: bool, n: int) -> (s: Seq<usize>)
    requires
        0 <= n <= keys.len() <= usize::MAX,
    ensures
        arranged(keys, asc, s, 0, n),
    decreases n,
{
    if n == 0 {
        Seq::empty()
    } else {
        let s = lemma_arrange(keys, asc, n - 1);
        let x = (n - 1) as usize;
        let p = lemma_place_for(keys, asc, s, x, 0);
        let t = s.insert(p, x);
        assert forall|i: int| 0 <= i < t.len() implies 0 <= #[trigger] t[i] < n by {
            if i < p {
                assert(t[i] == s[i]);
            } else if i > p {
                assert(t[i] == s[i - 1]);
            }
        }
        assert forall|y: usize| 0 <= y < n implies t.contains(y) by {
            if y == x {
                assert(t[p] == x);
            } else {
                assert(s.contains(y));
                let q = choose|q: int| 0 <= q < s.len() && s[q] == y;
                if q < p {
                    assert(t[q] == y);
                } else {
                    assert(t[q + 1] == y);
                }
            }
        }
        assert forall|i: int, j: int| 0 <= i < j < t.len() implies precedes(
            keys,
            asc,
            #[trigger] t[i] as int,
            #[trigger] t[j] as int,
        ) by {
            let a = if i < p {
                i
            } else {
                i - 1
            };
            let b = if j < p {
                j
            } else {
                j - 1
            };
            if i != p && j != p {
                assert(t[i] == s[a] && t[j] == s[b]);
            } else if j == p {
                assert(t[i] == s[i]);
                lemma_precedes_total(keys, asc, x as int, s[i] as int);
            } else {
                assert(t[j] == s[b]);
                if b > p {
                    lemma_precedes_chain(keys, asc, x as int, s[p] as int, s[b] as int);
                }
            }
        }
        t
    }
}

/// The first position at or after `i` whose row comes after the row `x`.
proof fn lemma_place_for(
    keys: Seq<SortModel>,
    asc: bool,
    s: Seq<usize>,
    x: usize,
    i: int,
) -> (p: int)
    requires
        0 <= i <= s.len(),
        forall|k: int| 0 <= k < i ==> !precedes(keys, asc, x as int, #[trigger] s[k] as int),
    ensures
        0 <= p <= s.len(),
        forall|k: int| 0 <= k < p ==> !precedes(keys, asc, x as int, #[trigger] s[k] as int),
        p < s.len() ==> precedes(keys, asc, x as int, s[p] as int),
    decreases s.len() - i,
{
    if i == s.len() || precedes(keys, asc, x as int, s[i] as int) {
        i
    } else {
        lemma_place_for(keys, asc, s, x, i + 1)
    }
}

/// Only one order is the sorted order.
pub proof fn law_order_unique(keys: Seq<SortModel>, asc: bool, a: Seq<usize>, b: Seq<usize>)
    requires
        is_order(keys, asc, a),
        is_order(keys, asc, b),
    ensures
        a == b,
{
    lemma_agree_up_to(keys, asc, a, b, a.len() as int);
    assert(a =~= b);
}

proof fn lemma_agree_up_to(keys: Seq<SortModel>, asc: bool, a: Seq<usize>, b: Seq<usize>, n: int)
    requires
        is_order(keys, asc, a),
        is_order(keys, asc, b),
        0 <= n <= a.len(),
    ensures
        forall|i: int| 0 <= i < n ==> a[i] == b[i],
    decreases n,
{
    if n > 0 {
        lemma_agree_up_to(keys, asc, a, b, n - 1);
        let k = n - 1;
        if a[k] != b[k] {
            lemma_precedes_total(keys, asc, a[k] as int, b[k] as int);
            lemma_not_behind(keys, asc, a, b, k);
            lemma_not_behind(keys, asc, b, a, k);
        }
    }
}

proof fn lemma_not_behind(keys: Seq<SortModel>, asc: bool, a: Seq<usize>, b: Seq<usize>, k: int)
    requires
        is_order(keys, asc, a),
        is_order(keys, asc, b),
        0 <= k < a.len(),
        forall|i: int| 0 <= i < k ==> a[i] == b[i],
        a[k] != b[k],
    ensures
        precedes(keys, asc, a[k] as int, b[k] as int),
{
    assert(a.contains(b[k]));
    let p = choose|p: int| 0 <= p < a.len() && a[p] == b[k];
    if p < k {
        assert(precedes(keys, asc, b[p] as int, b[k] as int));
        lemma_before_total(keys[b[k] as int], keys[b[k] as int]);
    }
}

/// Sorting what is already sorted changes nothing.
pub proof fn law_sort_settled<T>(
    keys: Seq<SortModel>,
    asc: bool,
    rows: Seq<T>,
    first: Seq<usize>,
    again: Seq<usize>,
)
    requires
        rows.len() == keys.len() <= usize::MAX,
        is_order(keys, asc, first),
        is_order(permuted(keys, first), asc, again),
    ensures
        permuted(permuted(rows, first), again) == permuted(rows, first),
{
    let next = permuted(keys, first);
    let stay = Seq::new(keys.len(), |i: int| i as usize);
    assert(next.len() == keys.len());
    assert forall|x: usize| 0 <= x < next.len() implies stay.contains(x) by {
        assert(stay[x as int] == x);
    }
    assert forall|i: int, j: int| 0 <= i < j < stay.len() implies precedes(
        next,
        asc,
        #[trigger] stay[i] as int,
        #[trigger] stay[j] as int,
    ) by {
        assert(precedes(keys, asc, first[i] as int, first[j] as int));
    }
    law_order_unique(next, asc, again, stay);
    assert(permuted(permuted(rows, first), again) =~= permuted(rows, first));
}

/// Sorted rows stand in the order of their keys, and those with equal keys in the
/// order that they had. No row is lost and none comes twice.
pub proof fn law_sorted_rows<T>(rows: Seq<T>, keys: Seq<SortModel>, asc: bool, out: Seq<T>)
    requires
        rows.len() == keys.len() <= usize::MAX,
        sorts(rows, keys, asc, out),
    ensures
        ({
            let from = order_for(keys, asc);
            &&& out.len() == rows.len()
            &&& from.len() == rows.len()
            &&& from.no_duplicates()
            &&& forall|i: int|
                0 <= i < out.len() ==> 0 <= #[trigger] from[i] < rows.len() && out[i]
                    == rows[from[i] as int]
            &&& forall|k: int| 0 <= k < rows.len() ==> out.contains(#[trigger] rows[k])
            &&& forall|i: int, j: int|
                0 <= i < j < out.len() ==> {
                    let a = keys[#[trigger] from[i] as int];
                    let b = keys[#[trigger] from[j] as int];
                    if asc {
                        !before(b, a)
                    } else {
                        !before(a, b)
                    }
                }
            &&& forall|i: int, j: int|
                0 <= i < j < out.len() && keys[(#[trigger] from[i]) as int] == keys[(
                #[trigger] from[j]) as int] ==> from[i] < from[j]
        }),
{
    let from = order_for(keys, asc);
    assert forall|k: int| 0 <= k < rows.len() implies out.contains(#[trigger] rows[k]) by {
        assert(from.contains(k as usize));
        let p = choose|p: int| 0 <= p < from.len() && from[p] == k as usize;
        assert(out[p] == rows[k]);
    }
    assert forall|i: int, j: int| 0 <= i < j < out.len() implies {
        let a = keys[#[trigger] from[i] as int];
        let b = keys[#[trigger] from[j] as int];
        if asc {
            !before(b, a)
        } else {
            !before(a, b)
        }
    } by {
        assert(precedes(keys, asc, from[i] as int, from[j] as int));
        lemma_before_total(keys[from[i] as int], keys[from[j] as int]);
    }
    assert forall|i: int, j: int|
        0 <= i < j < out.len() && keys[(#[trigger] from[i]) as int] == keys[(
        #[trigger] from[j]) as int] implies from[i] < from[j] by {
        assert(precedes(keys, asc, from[i] as int, from[j] as int));
        lemma_before_total(keys[from[i] as int], keys[from[j] as int]);
    }
    assert forall|i: int, j: int| 0 <= i < from.len() && 0 <= j < from.len() && i != j implies from[i]
        != from[j] by {
        if i < j {
            assert(precedes(keys, asc, from[i] as int, from[j] as int));
        } else {
            assert(precedes(keys, asc, from[j] as int, from[i] as int));
        }
        lemma_before_total(keys[from[i] as int], keys[from[i] as int]);
    }
}

} // verus!
