//! A map kept as a list in the order of its keys.

use vstd::prelude::*;

verus! {

/// A key with a total order.
pub trait Key: Copy {
    /// Whether `self` comes before `other`.
    spec fn precedes(self, other: Self) -> bool;

    /// Of three keys in a row the first comes before the third.
    proof fn in_a_row(a: Self, b: Self, c: Self)
        requires
            a.precedes(b),
            b.precedes(c),
        ensures
            a.precedes(c),
    ;

    /// Two keys are the same exactly if neither comes before the other.
    proof fn one_way(a: Self, b: Self)
        ensures
            a == b <==> !a.precedes(b) && !b.precedes(a),
            a.precedes(b) ==> !b.precedes(a),
    ;

    /// Whether `self` comes before `other`.
    fn before(&self, other: &Self) -> (r: bool)
        ensures
            r == self.precedes(*other),
    ;
}

/// The map from the keys in `e` to the views of their values.
pub open spec fn table_of<K: Key, V: View>(e: Seq<(K, V)>) -> Map<K, V::V>
    decreases e.len(),
{
    if e.len() == 0 {
        Map::empty()
    } else {
        table_of(e.drop_last()).insert(e.last().0, e.last().1@)
    }
}

/// What `m` has under `key`.
pub open spec fn lookup<K, V>(m: Map<K, V>, key: K) -> Option<V> {
    if m.contains_key(key) {
        Some(m[key])
    } else {
        None
    }
}

/// A map from keys to values.
///
/// The view is the map from keys to the views of the values.
#[derive(Debug, Clone)]
pub struct Table<K, V> {
    entries: Vec<(K, V)>,
}

/// Whether the keys of `e` increase.
spec fn increasing<K: Key, V>(e: Seq<(K, V)>) -> bool {
    forall|i: int, j: int| 0 <= i < j < e.len() ==> (#[trigger] e[i]).0.precedes((#[trigger] e[j]).0)
}

proof fn lemma_table<K: Key, V: View>(e: Seq<(K, V)>)
    requires
        increasing(e),
    ensures
        forall|k: K| #[trigger]
            table_of(e).contains_key(k) ==> exists|i: int| 0 <= i < e.len() && (#[trigger] e[i]).0 == k,
        forall|i: int|
            0 <= i < e.len() ==> table_of(e).contains_key((#[trigger] e[i]).0) && table_of(e)[e[i].0]
                == e[i].1@,
        table_of(e).dom().finite(),
        table_of(e).len() == e.len(),
    decreases e.len(),
{
    if e.len() > 0 {
        let f = e.drop_last();
        lemma_table(f);
        assert(forall|i: int| 0 <= i < f.len() ==> f[i] == e[i]);
        assert forall|k: K| #[trigger] table_of(e).contains_key(k) implies exists|i: int|
            0 <= i < e.len() && (#[trigger] e[i]).0 == k by {
            if k == e.last().0 {
                assert(e[e.len() - 1].0 == k);
            } else {
                assert(table_of(f).contains_key(k));
                let i = choose|i: int| 0 <= i < f.len() && (#[trigger] f[i]).0 == k;
                assert(e[i].0 == k);
            }
        }
        assert forall|i: int| 0 <= i < e.len() implies table_of(e).contains_key((#[trigger] e[i]).0)
            && table_of(e)[e[i].0] == e[i].1@ by {
            if i < e.len() - 1 {
                assert(e[i].0.precedes(e[e.len() - 1].0));
                K::one_way(e[i].0, e[e.len() - 1].0);
                assert(f[i].0 == e[i].0);
            }
        }
        assert(!table_of(f).contains_key(e.last().0)) by {
            if table_of(f).contains_key(e.last().0) {
                let i = choose|i: int| 0 <= i < f.len() && (#[trigger] f[i]).0 == e.last().0;
                assert(e[i].0.precedes(e[e.len() - 1].0));
                K::one_way(e[i].0, e[e.len() - 1].0);
            }
        }
        assert(table_of(e).dom() =~= table_of(f).dom().insert(e.last().0));
    } else {
        assert(table_of(e) =~= Map::<K, V::V>::empty());
    }
}

/// `b` holds what `a` does, but for the key `k`.
spec fn same_but<K: Key, V: View>(a: Seq<(K, V)>, b: Seq<(K, V)>, k: K) -> bool {
    &&& forall|i: int|
        0 <= i < a.len() && (#[trigger] a[i]).0 != k ==> exists|j: int|
            0 <= j < b.len() && #[trigger] b[j] == a[i]
    &&& forall|j: int|
        0 <= j < b.len() && (#[trigger] b[j]).0 != k ==> exists|i: int|
            0 <= i < a.len() && #[trigger] a[i] == b[j]
}

#[verifier::rlimit(40)]
proof fn lemma_same_but<K: Key, V: View>(a: Seq<(K, V)>, b: Seq<(K, V)>, k: K)
    requires
        increasing(a),
        increasing(b),
        same_but(a, b, k),
    ensures
        table_of(a).remove(k) == table_of(b).remove(k),
{
    lemma_table(a);
    lemma_table(b);
    let p = table_of(a).remove(k);
    let q = table_of(b).remove(k);
    assert forall|x: K| #[trigger] p.contains_key(x) implies q.contains_key(x) && p[x] == q[x] by {
        let i = choose|i: int| 0 <= i < a.len() && (#[trigger] a[i]).0 == x;
        let j = choose|j: int| 0 <= j < b.len() && #[trigger] b[j] == a[i];
        assert(table_of(b).contains_key(b[j].0));
    }
    assert forall|x: K| #[trigger] q.contains_key(x) implies p.contains_key(x) by {
        let j = choose|j: int| 0 <= j < b.len() && (#[trigger] b[j]).0 == x;
        let i = choose|i: int| 0 <= i < a.len() && #[trigger] a[i] == b[j];
        assert(table_of(a).contains_key(a[i].0));
    }
    assert(p =~= q);
}

/// Whether the keys before position `at` are those before `key`.
spec fn splits<K: Key, V>(e: Seq<(K, V)>, at: int, key: K) -> bool {
    &&& 0 <= at <= e.len()
    &&& forall|i: int| 0 <= i < at ==> (#[trigger] e[i]).0.precedes(key)
    &&& forall|i: int| at <= i < e.len() ==> !(#[trigger] e[i]).0.precedes(key)
}

proof fn lemma_found<K: Key, V: View>(e: Seq<(K, V)>, at: int, key: K)
    requires
        splits(e, at, key),
        at < e.len(),
        !key.precedes(e[at].0),
    ensures
        e[at].0 == key,
{
    K::one_way(e[at].0, key);
}

proof fn lemma_absent<K: Key, V: View>(e: Seq<(K, V)>, at: int, key: K)
    requires
        increasing(e),
        splits(e, at, key),
        at < e.len() ==> key.precedes(e[at].0),
    ensures
        forall|i: int| 0 <= i < e.len() ==> (#[trigger] e[i]).0 != key,
        forall|i: int| at <= i < e.len() ==> key.precedes((#[trigger] e[i]).0),
{
    assert forall|i: int| at <= i < e.len() implies key.precedes((#[trigger] e[i]).0) by {
        if i > at {
            K::in_a_row(key, e[at].0, e[i].0);
        }
    }
    assert forall|i: int| 0 <= i < e.len() implies (#[trigger] e[i]).0 != key by {
        K::one_way(e[i].0, key);
    }
}

proof fn lemma_not_found<K: Key, V: View>(e: Seq<(K, V)>, at: int, key: K)
    requires
        increasing(e),
        splits(e, at, key),
        at < e.len() ==> key.precedes(e[at].0),
    ensures
        !table_of(e).contains_key(key),
{
    lemma_table(e);
    lemma_absent(e, at, key);
}

proof fn lemma_set<K: Key, V: View>(a: Seq<(K, V)>, at: int, v: V)
    requires
        increasing(a),
        0 <= at < a.len(),
    ensures
        increasing(a.update(at, (a[at].0, v))),
        table_of(a.update(at, (a[at].0, v))) == table_of(a).insert(a[at].0, v@),
{
    let key = a[at].0;
    let b = a.update(at, (key, v));
    assert forall|i: int, j: int| 0 <= i < j < b.len() implies (#[trigger] b[i]).0.precedes(
        (#[trigger] b[j]).0,
    ) by {
        assert(b[i].0 == a[i].0 && b[j].0 == a[j].0);
    }
    assert forall|i: int| 0 <= i < a.len() && (#[trigger] a[i]).0 != key implies exists|j: int|
        0 <= j < b.len() && #[trigger] b[j] == a[i] by {
        assert(b[i] == a[i]);
    }
    assert forall|j: int| 0 <= j < b.len() && (#[trigger] b[j]).0 != key implies exists|i: int|
        0 <= i < a.len() && #[trigger] a[i] == b[j] by {
        assert(a[j] == b[j]);
    }
    lemma_replaced(a, b, at, key, v);
}

#[verifier::rlimit(40)]
proof fn lemma_replaced<K: Key, V: View>(a: Seq<(K, V)>, b: Seq<(K, V)>, at: int, key: K, v: V)
    requires
        increasing(a),
        increasing(b),
        same_but(a, b, key),
        0 <= at < b.len(),
        b[at] == (key, v),
    ensures
        table_of(b) == table_of(a).insert(key, v@),
{
    lemma_same_but(a, b, key);
    lemma_table(b);
    assert(table_of(b).contains_key(b[at].0));
    assert(table_of(b) =~= table_of(b).remove(key).insert(key, v@));
    assert(table_of(a).insert(key, v@) =~= table_of(a).remove(key).insert(key, v@));
}

proof fn lemma_put<K: Key, V: View>(a: Seq<(K, V)>, at: int, key: K, v: V)
    requires
        increasing(a),
        splits(a, at, key),
        at < a.len() ==> key.precedes(a[at].0),
    ensures
        increasing(a.insert(at, (key, v))),
        table_of(a.insert(at, (key, v))) == table_of(a).insert(key, v@),
{
    let b = a.insert(at, (key, v));
    lemma_absent(a, at, key);
    assert forall|i: int, j: int| 0 <= i < j < b.len() implies (#[trigger] b[i]).0.precedes(
        (#[trigger] b[j]).0,
    ) by {
        if i < at {
            assert(b[i] == a[i]);
        } else if i > at {
            assert(b[i] == a[i - 1]);
        }
        if j < at {
            assert(b[j] == a[j]);
        } else if j > at {
            assert(b[j] == a[j - 1]);
        }
    }
    assert forall|i: int| 0 <= i < a.len() && (#[trigger] a[i]).0 != key implies exists|j: int|
        0 <= j < b.len() && #[trigger] b[j] == a[i] by {
        if i < at {
            assert(b[i] == a[i]);
        } else {
            assert(b[i + 1] == a[i]);
        }
    }
    assert forall|j: int| 0 <= j < b.len() && (#[trigger] b[j]).0 != key implies exists|i: int|
        0 <= i < a.len() && #[trigger] a[i] == b[j] by {
        if j < at {
            assert(a[j] == b[j]);
        } else {
            assert(a[j - 1] == b[j]);
        }
    }
    lemma_replaced(a, b, at, key, v);
}

proof fn lemma_taken_out_order<K: Key, V: View>(a: Seq<(K, V)>, at: int)
    requires
        increasing(a),
        0 <= at < a.len(),
    ensures
        increasing(a.remove(at)),
        forall|j: int| 0 <= j < a.len() - 1 ==> (#[trigger] a.remove(at)[j]).0 != a[at].0,
{
    let b = a.remove(at);
    assert forall|i: int, j: int| 0 <= i < j < b.len() implies (#[trigger] b[i]).0.precedes(
        (#[trigger] b[j]).0,
    ) by {
        let x = if i < at {
            i
        } else {
            i + 1
        };
        let y = if j < at {
            j
        } else {
            j + 1
        };
        assert(b[i] == a[x] && b[j] == a[y]);
    }
    assert forall|j: int| 0 <= j < b.len() implies (#[trigger] b[j]).0 != a[at].0 by {
        if j < at {
            assert(b[j] == a[j]);
            K::one_way(a[j].0, a[at].0);
        } else {
            assert(b[j] == a[j + 1]);
            K::one_way(a[at].0, a[j + 1].0);
        }
    }
}

proof fn lemma_taken_out_rest<K: Key, V: View>(a: Seq<(K, V)>, at: int)
    requires
        0 <= at < a.len(),
    ensures
        same_but(a, a.remove(at), a[at].0),
{
    let key = a[at].0;
    let b = a.remove(at);
    assert forall|i: int| 0 <= i < a.len() && (#[trigger] a[i]).0 != key implies exists|j: int|
        0 <= j < b.len() && #[trigger] b[j] == a[i] by {
        let j = if i < at {
            i
        } else {
            i - 1
        };
        assert(b[j] == a[i]);
    }
    assert forall|j: int| 0 <= j < b.len() && (#[trigger] b[j]).0 != key implies exists|i: int|
        0 <= i < a.len() && #[trigger] a[i] == b[j] by {
        let i = if j < at {
            j
        } else {
            j + 1
        };
        assert(a[i] == b[j]);
    }
}

#[verifier::rlimit(40)]
proof fn lemma_taken_out<K: Key, V: View>(a: Seq<(K, V)>, at: int)
    requires
        increasing(a),
        0 <= at < a.len(),
    ensures
        increasing(a.remove(at)),
        table_of(a.remove(at)) == table_of(a).remove(a[at].0),
{
    let key = a[at].0;
    let b = a.remove(at);
    lemma_taken_out_order(a, at);
    lemma_taken_out_rest(a, at);
    lemma_same_but(a, b, key);
    lemma_table(b);
    assert(!table_of(b).contains_key(key));
    assert(table_of(b) =~= table_of(b).remove(key));
}

impl<K: Key, V: View> View for Table<K, V> {
    type V = Map<K, V::V>;

    closed spec fn view(&self) -> Map<K, V::V> {
        table_of(self.entries@)
    }
}

impl<K: Key, V: View> Table<K, V> {
    /// The invariant: the keys increase.
    pub closed spec fn wf(&self) -> bool {
        increasing(self.entries@)
    }

    /// The keys, in increasing order.
    pub closed spec fn keys(&self) -> Seq<K> {
        self.entries@.map_values(|e: (K, V)| e.0)
    }

    /// An empty table.
    pub fn new() -> (r: Table<K, V>)
        ensures
            r.wf(),
            r@ == Map::<K, V::V>::empty(),
            r.keys().len() == 0,
    {
        Table { entries: Vec::new() }
    }

    /// The number of keys.
    pub fn len(&self) -> (r: usize)
        requires
            self.wf(),
        ensures
            r == self@.len(),
            r == self.keys().len(),
            self@.dom().finite(),
    {
        proof {
            lemma_table(self.entries@);
        }
        self.entries.len()
    }

    /// The number of keys before `key`.
    fn position(&self, key: &K) -> (r: usize)
        requires
            self.wf(),
        ensures
            r <= self.entries@.len(),
            forall|i: int| 0 <= i < r ==> (#[trigger] self.entries@[i]).0.precedes(*key),
            forall|i: int|
                r <= i < self.entries@.len() ==> !(#[trigger] self.entries@[i]).0.precedes(*key),
    {
        let mut low: usize = 0;
        let mut high: usize = self.entries.len();
        while low < high
            invariant
                self.wf(),
                low <= high <= self.entries@.len(),
                forall|i: int| 0 <= i < low ==> (#[trigger] self.entries@[i]).0.precedes(*key),
                forall|i: int|
                    high <= i < self.entries@.len() ==> !(#[trigger] self.entries@[i]).0.precedes(*key),
            decreases high - low,
        {
            let mid = low + (high - low) / 2;
            let first = self.entries[mid].0.before(key);
            proof {
                let e = self.entries@;
                if first {
                    assert forall|i: int| 0 <= i < mid + 1 implies (#[trigger] e[i]).0.precedes(*key) by {
                        if i < mid {
                            K::in_a_row(e[i].0, e[mid as int].0, *key);
                        }
                    }
                } else {
                    assert forall|i: int| mid <= i < e.len() implies !(#[trigger] e[i]).0.precedes(*key) by {
                        if i > mid && e[i].0.precedes(*key) {
                            K::in_a_row(e[mid as int].0, e[i].0, *key);
                        }
                    }
                }
            }
            if first {
                low = mid + 1;
            } else {
                high = mid;
            }
        }
        low
    }

    /// Puts `value` under `key`, in place of what was there.
    pub fn insert(&mut self, key: K, value: V)
        requires
            old(self).wf(),
        ensures
            final(self).wf(),
            final(self)@ == old(self)@.insert(key, value@),
    {
        let at = self.position(&key);
        if at < self.entries.len() && !key.before(&self.entries[at].0) {
            proof {
                lemma_found(self.entries@, at as int, key);
                lemma_set(self.entries@, at as int, value);
            }
            self.entries.set(at, (key, value));
        } else {
            proof {
                lemma_put(self.entries@, at as int, key, value);
            }
            self.entries.insert(at, (key, value));
        }
    }

    /// Takes out what is under `key`, if anything.
    pub fn remove(&mut self, key: &K)
        requires
            old(self).wf(),
        ensures
            final(self).wf(),
            final(self)@ == old(self)@.remove(*key),
    {
        let at = self.position(key);
        if at < self.entries.len() && !key.before(&self.entries[at].0) {
            proof {
                lemma_found(self.entries@, at as int, *key);
                lemma_taken_out(self.entries@, at as int);
            }
            self.entries.remove(at);
        } else {
            proof {
                lemma_not_found(self.entries@, at as int, *key);
                assert(self@ =~= self@.remove(*key));
            }
        }
    }

    /// The value under `key`.
    pub fn get(&self, key: &K) -> (r: Option<&V>)
        requires
            self.wf(),
        ensures
            match r {
                Some(v) => self@.contains_key(*key) && self@[*key] == v@,
                None => !self@.contains_key(*key),
            },
    {
        let at = self.position(key);
        if at < self.entries.len() && !key.before(&self.entries[at].0) {
            proof {
                lemma_table(self.entries@);
                lemma_found(self.entries@, at as int, *key);
            }
            Some(&self.entries[at].1)
        } else {
            proof {
                lemma_not_found(self.entries@, at as int, *key);
            }
            None
        }
    }

    /// The key at position `i`, with its value.
    pub fn at(&self, i: usize) -> (r: (K, &V))
        requires
            self.wf(),
            i < self.keys().len(),
        ensures
            r.0 == self.keys()[i as int],
            self@.contains_key(r.0),
            self@[r.0] == r.1@,
    {
        proof {
            lemma_table(self.entries@);
        }
        let e = &self.entries[i];
        (e.0, &e.1)
    }

    /// The keys are those of the map, each once.
    pub proof fn lemma_keys(&self)
        requires
            self.wf(),
        ensures
            self.keys().no_duplicates(),
            forall|k: K| #[trigger] self@.contains_key(k) <==> self.keys().contains(k),
            self@.dom().finite(),
            self@.len() == self.keys().len(),
    {
        let e = self.entries@;
        lemma_table(e);
        let ks = self.keys();
        assert forall|i: int, j: int| 0 <= i < ks.len() && 0 <= j < ks.len() && i != j implies ks[i]
            != ks[j] by {
            K::one_way(e[i].0, e[j].0);
            if i < j {
                assert(e[i].0.precedes(e[j].0));
            } else {
                assert(e[j].0.precedes(e[i].0));
            }
        }
        assert forall|k: K| #[trigger] self@.contains_key(k) <==> ks.contains(k) by {
            if self@.contains_key(k) {
                let i = choose|i: int| 0 <= i < e.len() && (#[trigger] e[i]).0 == k;
                assert(ks[i] == k);
            }
            if ks.contains(k) {
                let i = ks.index_of(k);
                assert(e[i].0 == k);
            }
        }
    }
}

} // verus!
