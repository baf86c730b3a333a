//! A map kept as a list of entries in the order in which their keys arrived.
use vstd::prelude::*;
use crate::bytes::{key_eq, PublicKey};

verus! {

/// A type that can key a [`KeyTable`]: equality is decidable.
pub trait TableKey: Copy {
    /// Whether the two keys are the same key.
    fn same(&self, other: &Self) -> (b: bool)
        ensures
            b == (*self == *other),
    ;
}

impl TableKey for PublicKey {
    fn same(&self, other: &Self) -> (b: bool) {
        key_eq(self, other)
    }
}

impl TableKey for u64 {
    fn same(&self, other: &Self) -> (b: bool) {
        *self == *other
    }
}

/// Position of the first entry with key `k`, or the number of entries if there is none.
pub open spec fn find<K, V>(e: Seq<(K, V)>, k: K) -> int
    decreases e.len(),
{
    if e.len() == 0 {
        0
    } else if e[0].0 == k {
        0
    } else {
        1 + find(e.drop_first(), k)
    }
}

/// Whether there is an entry with key `k`.
pub open spec fn has_key<K, V>(e: Seq<(K, V)>, k: K) -> bool {
    find(e, k) < e.len()
}

/// The value under `k`.
pub open spec fn get<K, V>(e: Seq<(K, V)>, k: K) -> Option<V> {
    if has_key(e, k) {
        Some(e[find(e, k)].1)
    } else {
        None
    }
}

/// The entries after `v` was put under `k`: in place if `k` was there, at the end if not.
pub open spec fn put<K, V>(e: Seq<(K, V)>, k: K, v: V) -> Seq<(K, V)> {
    if has_key(e, k) {
        e.update(find(e, k), (k, v))
    } else {
        e.push((k, v))
    }
}

/// The entries without the one under `k`.
pub open spec fn del<K, V>(e: Seq<(K, V)>, k: K) -> Seq<(K, V)> {
    if has_key(e, k) {
        e.remove(find(e, k))
    } else {
        e
    }
}

/// No key occurs twice.
pub open spec fn distinct<K, V>(e: Seq<(K, V)>) -> bool {
    forall|i: int, j: int| 0 <= i < j < e.len() ==> e[i].0 != e[j].0
}

/// `find` gives the first entry with the key.
pub proof fn lemma_find<K, V>(e: Seq<(K, V)>, k: K)
    ensures
        0 <= find(e, k) <= e.len(),
        forall|j: int| 0 <= j < find(e, k) ==> e[j].0 != k,
        has_key(e, k) ==> e[find(e, k)].0 == k,
    decreases e.len(),
{
    if e.len() > 0 && e[0].0 != k {
        let t = e.drop_first();
        lemma_find(t, k);
        assert forall|j: int| 0 <= j < find(e, k) implies e[j].0 != k by {
            if j > 0 {
                assert(t[j - 1] == e[j]);
            }
        }
    }
}

/// An entry that no earlier one shares its key with is the one that `find` gives.
pub proof fn lemma_find_at<K, V>(e: Seq<(K, V)>, k: K, i: int)
    requires
        0 <= i <= e.len(),
        forall|j: int| 0 <= j < i ==> e[j].0 != k,
        i < e.len() ==> e[i].0 == k,
    ensures
        find(e, k) == i,
{
    lemma_find(e, k);
    if find(e, k) < i {
        assert(e[find(e, k)].0 == k);
    } else if find(e, k) > i {
        assert(e[i].0 != k);
    }
}

/// Under distinct keys every entry is found under its key.
pub proof fn lemma_entry<K, V>(e: Seq<(K, V)>, i: int)
    requires
        distinct(e),
        0 <= i < e.len(),
    ensures
        find(e, e[i].0) == i,
        get(e, e[i].0) == Some(e[i].1),
{
    lemma_find_at(e, e[i].0, i);
}

/// Reading after a write: the key written has the new value, every other key its old one.
pub proof fn lemma_put<K, V>(e: Seq<(K, V)>, k: K, v: V)
    ensures
        forall|q: K| #[trigger] get(put(e, k, v), q) == (if q == k { Some(v) } else { get(e, q) }),
        distinct(e) ==> distinct(put(e, k, v)),
{
    lemma_find(e, k);
    let p = put(e, k, v);
    assert forall|q: K| #[trigger] get(p, q) == (if q == k { Some(v) } else { get(e, q) }) by {
        lemma_find(e, q);
        lemma_find(p, q);
        if q == k {
            let i = if has_key(e, k) { find(e, k) } else { e.len() as int };
            lemma_find_at(p, k, i);
        } else if has_key(e, q) {
            lemma_find_at(p, q, find(e, q));
        } else {
            lemma_find_at(p, q, p.len() as int);
        }
    }
    if distinct(e) {
        assert forall|i: int, j: int| 0 <= i < j < p.len() implies p[i].0 != p[j].0 by {
            if has_key(e, k) {
                assert(p[i].0 == e[i].0);
                assert(p[j].0 == e[j].0);
            }
        }
    }
}

/// Reading after a removal: the key removed is gone, every other key keeps its value.
pub proof fn lemma_del<K, V>(e: Seq<(K, V)>, k: K)
    requires
        distinct(e),
    ensures
        forall|q: K| #[trigger] get(del(e, k), q) == (if q == k { None } else { get(e, q) }),
        distinct(del(e, k)),
{
    lemma_find(e, k);
    let d = del(e, k);
    let f = find(e, k);
    if has_key(e, k) {
        assert forall|i: int| 0 <= i < d.len() implies #[trigger] d[i] == (if i < f {
            e[i]
        } else {
            e[i + 1]
        }) by {}
        assert(distinct(d));
    }
    assert forall|q: K| #[trigger] get(d, q) == (if q == k { None } else { get(e, q) }) by {
        lemma_find(e, q);
        lemma_find(d, q);
        if has_key(e, k) {
            if q == k {
                assert forall|j: int| 0 <= j < d.len() implies d[j].0 != k by {
                    if j < f {
                        assert(e[j].0 != e[f].0);
                    } else {
                        assert(e[f].0 != e[j + 1].0);
                    }
                }
                lemma_find_at(d, k, d.len() as int);
            } else if has_key(e, q) {
                let g = find(e, q);
                assert(g != f);
                lemma_find_at(d, q, if g < f { g } else { g - 1 });
            } else {
                assert forall|j: int| 0 <= j < d.len() implies d[j].0 != q by {
                    assert(e[j].0 != q);
                    assert(e[j + 1].0 != q);
                }
                lemma_find_at(d, q, d.len() as int);
            }
        }
    }
}

/// The entries with `f` applied to every value.
pub open spec fn mapped<K, V, W>(e: Seq<(K, V)>, f: spec_fn(V) -> W) -> Seq<(K, W)> {
    Seq::new(e.len(), |i: int| (e[i].0, f(e[i].1)))
}

/// Mapping the values moves no key.
pub proof fn lemma_mapped_find<K, V, W>(e: Seq<(K, V)>, f: spec_fn(V) -> W, k: K)
    ensures
        find(mapped(e, f), k) == find(e, k),
        has_key(mapped(e, f), k) == has_key(e, k),
        get(mapped(e, f), k) == (match get(e, k) {
            Some(v) => Some(f(v)),
            None => None,
        }),
{
    lemma_find(e, k);
    lemma_find_at(mapped(e, f), k, find(e, k));
}

/// Mapping the values keeps the keys distinct.
pub proof fn lemma_mapped_distinct<K, V, W>(e: Seq<(K, V)>, f: spec_fn(V) -> W)
    ensures
        distinct(mapped(e, f)) == distinct(e),
{
    let m = mapped(e, f);
    assert(forall|i: int| 0 <= i < e.len() ==> (#[trigger] m[i]).0 == e[i].0);
    if distinct(e) {
        assert(forall|i: int, j: int| 0 <= i < j < m.len() ==> m[i].0 != m[j].0);
    }
    if distinct(m) {
        assert forall|i: int, j: int| 0 <= i < j < e.len() implies e[i].0 != e[j].0 by {
            assert(m[i].0 != m[j].0);
        }
    }
}

/// Mapping the values commutes with writing one.
pub proof fn lemma_mapped_put<K, V, W>(e: Seq<(K, V)>, f: spec_fn(V) -> W, k: K, v: V)
    ensures
        mapped(put(e, k, v), f) == put(mapped(e, f), k, f(v)),
{
    lemma_find(e, k);
    lemma_mapped_find(e, f, k);
    assert(mapped(put(e, k, v), f) =~= put(mapped(e, f), k, f(v)));
}

/// Mapping the values commutes with removing one.
pub proof fn lemma_mapped_del<K, V, W>(e: Seq<(K, V)>, f: spec_fn(V) -> W, k: K)
    ensures
        mapped(del(e, k), f) == del(mapped(e, f), k),
{
    lemma_find(e, k);
    lemma_mapped_find(e, f, k);
    assert(mapped(del(e, k), f) =~= del(mapped(e, f), k));
}

/// The entries whose value has the property.
pub open spec fn kept<K, V>(e: Seq<(K, V)>, p: spec_fn(V) -> bool) -> Seq<(K, V)>
    decreases e.len(),
{
    if e.len() == 0 {
        Seq::empty()
    } else if p(e.last().1) {
        kept(e.drop_last(), p).push(e.last())
    } else {
        kept(e.drop_last(), p)
    }
}

/// What is kept is found under its key; what is not kept is not.
pub proof fn lemma_kept<K, V>(e: Seq<(K, V)>, p: spec_fn(V) -> bool)
    requires
        distinct(e),
    ensures
        distinct(kept(e, p)),
        forall|k: K| #[trigger] get(kept(e, p), k) == (match get(e, k) {
            Some(v) => if p(v) {
                Some(v)
            } else {
                None
            },
            None => None,
        }),
    decreases e.len(),
{
    let r = kept(e, p);
    if e.len() > 0 {
        let d = e.drop_last();
        let (lk, lv) = e.last();
        assert(distinct(d));
        lemma_kept(d, p);
        let rd = kept(d, p);
        assert(!has_key(d, lk)) by {
            lemma_find(d, lk);
            if has_key(d, lk) {
                assert(e[find(d, lk)].0 != e[e.len() - 1].0);
            }
        }
        assert(get(rd, lk) is None);
        assert(!has_key(rd, lk));
        lemma_find(rd, lk);
        assert(e =~= put(d, lk, lv));
        lemma_put(d, lk, lv);
        if p(lv) {
            assert(r =~= put(rd, lk, lv));
            lemma_put(rd, lk, lv);
        }
        assert forall|k: K| #[trigger] get(r, k) == (match get(e, k) {
            Some(v) => if p(v) {
                Some(v)
            } else {
                None
            },
            None => None,
        }) by {
            assert(get(put(d, lk, lv), k) == (if k == lk {
                Some(lv)
            } else {
                get(d, k)
            }));
            assert(get(rd, k) == (match get(d, k) {
                Some(v) => if p(v) {
                    Some(v)
                } else {
                    None
                },
                None => None,
            }));
        }
    } else {
        assert forall|k: K| #[trigger] get(r, k) == (match get(e, k) {
            Some(v) => if p(v) {
                Some(v)
            } else {
                None
            },
            None => None,
        }) by {
            assert(get(e, k) is None);
        }
    }
}

/// Keeping by a property of the mapped value is mapping what is kept.
pub proof fn lemma_mapped_kept<K, V, W>(
    e: Seq<(K, V)>,
    f: spec_fn(V) -> W,
    p: spec_fn(W) -> bool,
)
    ensures
        mapped(kept(e, |v: V| p(f(v))), f) == kept(mapped(e, f), p),
    decreases e.len(),
{
    let q = |v: V| p(f(v));
    if e.len() == 0 {
        assert(mapped(kept(e, q), f) =~= kept(mapped(e, f), p));
    } else {
        let d = e.drop_last();
        lemma_mapped_kept(d, f, p);
        assert(mapped(e, f).drop_last() =~= mapped(d, f));
        assert(mapped(kept(e, q), f) =~= kept(mapped(e, f), p));
    }
}

/// A map from `K` to `V`. Its view is the list of its entries.
pub struct KeyTable<K, V> {
    entries: Vec<(K, V)>,
}

impl<K, V> View for KeyTable<K, V> {
    type V = Seq<(K, V)>;

    closed spec fn view(&self) -> Seq<(K, V)> {
        self.entries@
    }
}

impl<K: TableKey, V> KeyTable<K, V> {
    /// The map invariant: no key occurs twice.
    pub open spec fn wf(&self) -> bool {
        distinct(self@)
    }

    /// An empty map.
    pub fn new() -> (r: Self)
        ensures
            r@ == Seq::<(K, V)>::empty(),
            r.wf(),
    {
        KeyTable { entries: Vec::new() }
    }

    /// Number of entries.
    pub fn len(&self) -> (n: usize)
        ensures
            n == self@.len(),
    {
        self.entries.len()
    }

    /// Whether there is no entry.
    pub fn is_empty(&self) -> (r: bool)
        ensures
            r == (self@.len() == 0),
    {
        self.entries.len() == 0
    }

    /// Position of the entry under `k`, if there is one.
    pub fn position(&self, k: &K) -> (r: Option<usize>)
        ensures
            match r {
                Some(i) => has_key(self@, *k) && i == find(self@, *k),
                None => !has_key(self@, *k),
            },
            0 <= find(self@, *k) <= self@.len(),
            has_key(self@, *k) ==> self@[find(self@, *k)].0 == *k,
    {
        proof {
            lemma_find(self@, *k);
        }
        let mut i: usize = 0;
        while i < self.entries.len()
            invariant
                i <= self.entries.len(),
                forall|j: int| 0 <= j < i ==> self.entries@[j].0 != *k,
            decreases self.entries.len() - i,
        {
            if self.entries[i].0.same(k) {
                proof {
                    lemma_find_at(self@, *k, i as int);
                }
                return Some(i);
            }
            i += 1;
        }
        proof {
            lemma_find_at(self@, *k, i as int);
        }
        None
    }

    /// Whether there is an entry under `k`.
    pub fn contains_key(&self, k: &K) -> (r: bool)
        ensures
            r == has_key(self@, *k),
    {
        self.position(k).is_some()
    }

    /// The value under `k`.
    pub fn get(&self, k: &K) -> (r: Option<&V>)
        ensures
            match r {
                Some(v) => get(self@, *k) == Some(*v),
                None => get(self@, *k) is None,
            },
    {
        match self.position(k) {
            Some(i) => Some(&self.entries[i].1),
            None => None,
        }
    }

    /// The key of the entry at position `i`.
    pub fn key_at(&self, i: usize) -> (r: K)
        requires
            i < self@.len(),
        ensures
            r == self@[i as int].0,
    {
        self.entries[i].0
    }

    /// The value of the entry at position `i`.
    pub fn value_at(&self, i: usize) -> (r: &V)
        requires
            i < self@.len(),
        ensures
            *r == self@[i as int].1,
    {
        &self.entries[i].1
    }

    /// Gives access to the value of the entry at position `i`.
    pub fn value_at_mut(&mut self, i: usize) -> (r: &mut V)
        requires
            i < old(self)@.len(),
        ensures
            *r == old(self)@[i as int].1,
            final(self)@ == old(self)@.update(i as int, (old(self)@[i as int].0, *final(r))),
    {
        &mut self.entries[i].1
    }

    /// Puts `v` under `k`.
    pub fn insert(&mut self, k: K, v: V)
        ensures
            final(self)@ == put(old(self)@, k, v),
            old(self).wf() ==> final(self).wf(),
    {
        proof {
            lemma_put(self@, k, v);
        }
        match self.position(&k) {
            Some(i) => {
                self.entries[i] = (k, v);
            },
            None => {
                self.entries.push((k, v));
            },
        }
    }

    /// Removes the entry under `k` and returns its value.
    pub fn remove(&mut self, k: &K) -> (r: Option<V>)
        ensures
            final(self)@ == del(old(self)@, *k),
            r == get(old(self)@, *k),
            old(self).wf() ==> final(self).wf(),
    {
        proof {
            if self.wf() {
                lemma_del(self@, *k);
            }
        }
        match self.position(k) {
            Some(i) => {
                let (_, v) = self.entries.remove(i);
                Some(v)
            },
            None => None,
        }
    }

    /// Removes the entry at position `i` and returns its value.
    pub fn remove_at(&mut self, i: usize) -> (r: V)
        requires
            i < old(self)@.len(),
        ensures
            final(self)@ == old(self)@.remove(i as int),
            r == old(self)@[i as int].1,
            old(self).wf() ==> final(self).wf(),
    {
        let (_, v) = self.entries.remove(i);
        v
    }

    /// Removes every entry.
    pub fn clear(&mut self)
        ensures
            final(self)@ == Seq::<(K, V)>::empty(),
            final(self).wf(),
    {
        self.entries.clear();
    }
}

} // verus!
