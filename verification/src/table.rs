//! A map held as a list of entries, for keys that are compared by what they say.

use vstd::prelude::*;

verus! {

/// A key of a [`Table`]: two keys are the same when their models are.
pub trait MapKey: Sized {
    /// What a key says.
    type Model;

    /// What this key says.
    spec fn model(&self) -> Self::Model;

    /// Whether two keys say the same.
    fn same_key(&self, other: &Self) -> (r: bool)
        ensures
            r == (self.model() == other.model()),
    ;
}

/// A map from keys to values. No key occurs twice.
pub struct Table<K: MapKey, V> {
    entries: Vec<(K, V)>,
}

spec fn keyed<K: MapKey, V>(e: Seq<(K, V)>, k: K::Model, i: int) -> bool {
    0 <= i < e.len() && e[i].0.model() == k
}

spec fn distinct<K: MapKey, V>(e: Seq<(K, V)>) -> bool {
    forall|i: int, j: int|
        0 <= i < e.len() && 0 <= j < e.len() && i != j ==> (#[trigger] e[i]).0.model() != (
        #[trigger] e[j]).0.model()
}

spec fn contents<K: MapKey, V>(e: Seq<(K, V)>) -> Map<K::Model, V> {
    Map::new(
        |k: K::Model| exists|i: int| keyed(e, k, i),
        |k: K::Model| e[choose|i: int| keyed(e, k, i)].1,
    )
}

impl<K: MapKey, V> View for Table<K, V> {
    type V = Map<K::Model, V>;

    closed spec fn view(&self) -> Map<K::Model, V> {
        contents(self.entries@)
    }
}

proof fn lemma_at<K: MapKey, V>(e: Seq<(K, V)>, i: int)
    requires
        distinct(e),
        0 <= i < e.len(),
    ensures
        contents(e).dom().contains(e[i].0.model()),
        contents(e)[e[i].0.model()] == e[i].1,
{
    let k = e[i].0.model();
    assert(keyed(e, k, i));
    let j = choose|j: int| keyed(e, k, j);
    assert(keyed(e, k, j));
}

proof fn lemma_pushed<K: MapKey, V>(e: Seq<(K, V)>, x: (K, V))
    requires
        distinct(e),
        forall|i: int| 0 <= i < e.len() ==> (#[trigger] e[i]).0.model() != x.0.model(),
    ensures
        distinct(e.push(x)),
        contents(e.push(x)) == contents(e).insert(x.0.model(), x.1),
        !contents(e).dom().contains(x.0.model()),
{
    let f = e.push(x);
    assert(distinct(f)) by {
        assert forall|i: int, j: int|
            0 <= i < f.len() && 0 <= j < f.len() && i != j implies (#[trigger] f[i]).0.model() != (
        #[trigger] f[j]).0.model() by {
            if i < e.len() {
                assert(f[i] == e[i]);
            }
            if j < e.len() {
                assert(f[j] == e[j]);
            }
        }
    }
    assert forall|k: K::Model| #[trigger]
        contents(f).dom().contains(k) <==> contents(e).insert(x.0.model(), x.1).dom().contains(
            k,
        ) by {
        if exists|i: int| keyed(f, k, i) {
            let i = choose|i: int| keyed(f, k, i);
            if i < e.len() {
                assert(keyed(e, k, i));
            }
        }
        if exists|i: int| keyed(e, k, i) {
            let i = choose|i: int| keyed(e, k, i);
            assert(keyed(f, k, i));
        }
        assert(keyed(f, x.0.model(), e.len() as int));
    }
    assert forall|k: K::Model| contents(f).dom().contains(k) implies #[trigger] contents(f)[k]
        == contents(e).insert(x.0.model(), x.1)[k] by {
        let i = choose|i: int| keyed(f, k, i);
        lemma_at(f, i);
        if i < e.len() {
            lemma_at(e, i);
            assert(e[i].0.model() != x.0.model());
        }
    }
    if contents(e).dom().contains(x.0.model()) {
        let i = choose|i: int| keyed(e, x.0.model(), i);
        assert(e[i].0.model() == x.0.model());
    }
    assert(contents(f) =~= contents(e).insert(x.0.model(), x.1));
}

proof fn lemma_replaced<K: MapKey, V>(e: Seq<(K, V)>, f: Seq<(K, V)>, i: int, v: V)
    requires
        distinct(e),
        0 <= i < e.len(),
        f.len() == e.len(),
        forall|j: int| 0 <= j < e.len() ==> (#[trigger] f[j]).0.model() == e[j].0.model(),
        forall|j: int| 0 <= j < e.len() && j != i ==> (#[trigger] f[j]).1 == e[j].1,
        f[i].1 == v,
    ensures
        distinct(f),
        contents(f) == contents(e).insert(e[i].0.model(), v),
{
    assert forall|k: K::Model| #[trigger]
        contents(f).dom().contains(k) <==> contents(e).insert(e[i].0.model(), v).dom().contains(
            k,
        ) by {
        if exists|j: int| keyed(f, k, j) {
            let j = choose|j: int| keyed(f, k, j);
            assert(keyed(e, k, j));
        }
        if exists|j: int| keyed(e, k, j) {
            let j = choose|j: int| keyed(e, k, j);
            assert(keyed(f, k, j));
        }
        assert(keyed(f, e[i].0.model(), i));
    }
    assert forall|k: K::Model| contents(f).dom().contains(k) implies #[trigger] contents(f)[k]
        == contents(e).insert(e[i].0.model(), v)[k] by {
        let j = choose|j: int| keyed(f, k, j);
        lemma_at(f, j);
        lemma_at(e, j);
    }
    assert(contents(f) =~= contents(e).insert(e[i].0.model(), v));
}

impl<K: MapKey, V> Table<K, V> {
    #[verifier::type_invariant]
    spec fn inv(self) -> bool {
        distinct(self.entries@)
    }

    /// The empty map.
    pub fn new() -> (r: Table<K, V>)
        ensures
            r@ == Map::<K::Model, V>::empty(),
    {
        let r = Table { entries: Vec::new() };
        assert(r@ =~= Map::<K::Model, V>::empty());
        r
    }

    fn position(e: &Vec<(K, V)>, k: &K) -> (r: Option<usize>)
        ensures
            match r {
                Some(i) => i < e@.len() && e@[i as int].0.model() == k.model(),
                None => forall|i: int| 0 <= i < e@.len() ==> (#[trigger] e@[i]).0.model() != k.model(),
            },
    {
        let mut i: usize = 0;
        while i < e.len()
            invariant
                i <= e@.len(),
                forall|j: int| 0 <= j < i ==> (#[trigger] e@[j]).0.model() != k.model(),
            decreases e@.len() - i,
        {
            if e[i].0.same_key(k) {
                return Some(i);
            }
            i += 1;
        }
        None
    }

    /// The value at `k`.
    pub fn get(&self, k: &K) -> (r: Option<&V>)
        ensures
            match r {
                Some(v) => self@.dom().contains(k.model()) && *v == self@[k.model()],
                None => !self@.dom().contains(k.model()),
            },
    {
        proof {
            use_type_invariant(self);
        }
        match Self::position(&self.entries, k) {
            Some(i) => {
                proof {
                    lemma_at(self.entries@, i as int);
                }
                Some(&self.entries[i].1)
            },
            None => None,
        }
    }

    /// Whether there is a value at `k`.
    pub fn has(&self, k: &K) -> (r: bool)
        ensures
            r == self@.dom().contains(k.model()),
    {
        self.get(k).is_some()
    }

    /// Puts `v` at `k`.
    pub fn insert(&mut self, k: K, v: V)
        ensures
            final(self)@ == old(self)@.insert(k.model(), v),
    {
        proof {
            use_type_invariant(&*self);
        }
        let mut e: Vec<(K, V)> = Vec::new();
        std::mem::swap(&mut e, &mut self.entries);
        let ghost before = e@;
        match Self::position(&e, &k) {
            Some(i) => {
                let ghost km = k.model();
                e.set(i, (k, v));
                proof {
                    lemma_replaced(before, e@, i as int, v);
                }
            },
            None => {
                proof {
                    lemma_pushed(before, (k, v));
                }
                e.push((k, v));
            },
        }
        self.entries = e;
    }

    /// Removes everything.
    pub fn clear(&mut self)
        ensures
            final(self)@ == Map::<K::Model, V>::empty(),
    {
        self.entries = Vec::new();
        assert(self@ =~= Map::<K::Model, V>::empty());
    }

    /// Keeps the entries whose keys `keep` holds.
    pub fn retain_in<W>(&mut self, keep: &Table<K, W>)
        ensures
            final(self)@ == old(self)@.restrict(keep@.dom()),
    {
        proof {
            use_type_invariant(&*self);
        }
        let mut e: Vec<(K, V)> = Vec::new();
        std::mem::swap(&mut e, &mut self.entries);
        let ghost all = e@;
        let ghost dom = keep@.dom();
        let mut i: usize = 0;
        while i < e.len()
            invariant
                i <= e@.len(),
                dom == keep@.dom(),
                distinct(e@),
                contents(e@).restrict(dom) == contents(all).restrict(dom),
                forall|j: int| 0 <= j < i ==> dom.contains((#[trigger] e@[j]).0.model()),
            decreases e@.len() - i,
        {
            if keep.has(&e[i].0) {
                i += 1;
            } else {
                let ghost before = e@;
                let _gone = e.swap_remove(i);
                proof {
                    lemma_swap_removed(before, e@, i as int);
                    assert(contents(e@).restrict(dom) =~= contents(before).restrict(dom));
                    assert forall|j: int| 0 <= j < i implies dom.contains(
                        (#[trigger] e@[j]).0.model(),
                    ) by {
                        assert(e@[j] == before[j]);
                    }
                }
            }
        }
        proof {
            assert forall|k: K::Model| contents(e@).dom().contains(k) implies dom.contains(k) by {
                let j = choose|j: int| keyed(e@, k, j);
                assert(dom.contains(e@[j].0.model()));
            }
            assert(contents(e@).restrict(dom) =~= contents(e@));
        }
        self.entries = e;
    }

    /// Removes the entry at `k`.
    pub fn remove(&mut self, k: &K)
        ensures
            final(self)@ == old(self)@.remove(k.model()),
    {
        proof {
            use_type_invariant(&*self);
        }
        let mut e: Vec<(K, V)> = Vec::new();
        std::mem::swap(&mut e, &mut self.entries);
        let ghost before = e@;
        match Self::position(&e, k) {
            Some(i) => {
                let _gone = e.swap_remove(i);
                proof {
                    lemma_swap_removed(before, e@, i as int);
                }
            },
            None => {
                proof {
                    if contents(before).dom().contains(k.model()) {
                        let j = choose|j: int| keyed(before, k.model(), j);
                        assert(before[j].0.model() != k.model());
                    }
                    assert(contents(before).remove(k.model()) =~= contents(before));
                }
            },
        }
        self.entries = e;
    }
}

proof fn lemma_swap_removed<K: MapKey, V>(e: Seq<(K, V)>, f: Seq<(K, V)>, i: int)
    requires
        distinct(e),
        0 <= i < e.len(),
        f == e.update(i, e.last()).drop_last(),
    ensures
        distinct(f),
        contents(f) == contents(e).remove(e[i].0.model()),
{
    let last = e.len() - 1;
    assert forall|k: K::Model| #[trigger]
        contents(f).dom().contains(k) <==> contents(e).remove(e[i].0.model()).dom().contains(k) by {
        if exists|j: int| keyed(f, k, j) {
            let j = choose|j: int| keyed(f, k, j);
            if j == i {
                assert(keyed(e, k, last));
            } else {
                assert(keyed(e, k, j));
                assert(f[j] == e[j]);
            }
        }
        if k != e[i].0.model() && exists|j: int| keyed(e, k, j) {
            let j = choose|j: int| keyed(e, k, j);
            if j == last {
                assert(keyed(f, k, i));
            } else {
                assert(keyed(f, k, j));
            }
        }
    }
    assert forall|k: K::Model| contents(f).dom().contains(k) implies #[trigger] contents(f)[k]
        == contents(e).remove(e[i].0.model())[k] by {
        let j = choose|j: int| keyed(f, k, j);
        lemma_at(f, j);
        if j == i {
            lemma_at(e, last);
        } else {
            lemma_at(e, j);
        }
    }
    assert(contents(f) =~= contents(e).remove(e[i].0.model()));
}

impl<K: MapKey> Table<K, u64> {
    /// Sets every value to zero.
    pub fn zero_all(&mut self)
        ensures
            final(self)@ == old(self)@.map_values(|v: u64| 0u64),
    {
        proof {
            use_type_invariant(&*self);
        }
        let mut e: Vec<(K, u64)> = Vec::new();
        std::mem::swap(&mut e, &mut self.entries);
        let ghost before = e@;
        let mut i: usize = 0;
        while i < e.len()
            invariant
                i <= e@.len(),
                e@.len() == before.len(),
                forall|j: int| 0 <= j < e@.len() ==> (#[trigger] e@[j]).0 == before[j].0,
                forall|j: int| 0 <= j < i ==> (#[trigger] e@[j]).1 == 0,
            decreases e@.len() - i,
        {
            e[i].1 = 0;
            i += 1;
        }
        proof {
            let f = e@;
            assert(distinct(f));
            let m = contents(before).map_values(|v: u64| 0u64);
            assert forall|k: K::Model| #[trigger] contents(f).dom().contains(k) <==> m.dom().contains(
                k,
            ) by {
                if exists|j: int| keyed(f, k, j) {
                    let j = choose|j: int| keyed(f, k, j);
                    assert(keyed(before, k, j));
                }
                if exists|j: int| keyed(before, k, j) {
                    let j = choose|j: int| keyed(before, k, j);
                    assert(keyed(f, k, j));
                }
            }
            assert forall|k: K::Model| contents(f).dom().contains(k) implies #[trigger] contents(f)[k]
                == m[k] by {
                let j = choose|j: int| keyed(f, k, j);
                lemma_at(f, j);
            }
            assert(contents(f) =~= m);
        }
        self.entries = e;
    }
}

impl MapKey for String {
    type Model = Seq<char>;

    open spec fn model(&self) -> Seq<char> {
        self@
    }

    fn same_key(&self, other: &Self) -> (r: bool) {
        *self == *other
    }
}

impl MapKey for u32 {
    type Model = u32;

    open spec fn model(&self) -> u32 {
        *self
    }

    fn same_key(&self, other: &Self) -> (r: bool) {
        *self == *other
    }
}

} // verus!
