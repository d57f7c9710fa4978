//! A map from keys to small values that remembers the order in which its
//! keys arrived.

use crate::ident::Key;
use vstd::prelude::*;

verus! {

/// The keys of `s`, in order.
pub open spec fn keys_of<K, V>(s: Seq<(K, V)>) -> Seq<K> {
    s.map_values(|e: (K, V)| e.0)
}

/// The value that `s` holds for `k`.
pub open spec fn lookup<K, V>(s: Seq<(K, V)>, k: K) -> Option<V> {
    if keys_of(s).contains(k) {
        Some(s[keys_of(s).index_of(k)].1)
    } else {
        None
    }
}

/// `s` with `v` as the value of `k`: in place where `k` has a value, at the
/// end where it has none.
pub open spec fn with_entry<K, V>(s: Seq<(K, V)>, k: K, v: V) -> Seq<(K, V)> {
    if keys_of(s).contains(k) {
        s.update(keys_of(s).index_of(k), (k, v))
    } else {
        s.push((k, v))
    }
}

/// `s` without the entry of `k`.
pub open spec fn without_entry<K, V>(s: Seq<(K, V)>, k: K) -> Seq<(K, V)> {
    if keys_of(s).contains(k) {
        s.remove(keys_of(s).index_of(k))
    } else {
        s
    }
}

/// In a map without repeated keys, the entry at position `i` is the one that
/// a lookup of its key finds.
pub proof fn lemma_lookup_at<K, V>(s: Seq<(K, V)>, i: int)
    requires
        keys_of(s).no_duplicates(),
        0 <= i < s.len(),
    ensures
        keys_of(s).contains(s[i].0),
        keys_of(s).index_of(s[i].0) == i,
        lookup(s, s[i].0) == Some(s[i].1),
{
    let ks = keys_of(s);
    assert(ks[i] == s[i].0);
    let p = ks.index_of(s[i].0);
    assert(0 <= p < ks.len() && ks[p] == s[i].0);
}

/// A key that no entry holds has no value.
pub proof fn lemma_lookup_none<K, V>(s: Seq<(K, V)>, k: K)
    requires
        forall|i: int| 0 <= i < s.len() ==> (#[trigger] s[i]).0 != k,
    ensures
        !keys_of(s).contains(k),
        lookup(s, k) is None,
{
    let ks = keys_of(s);
    if ks.contains(k) {
        let i = choose|i: int| 0 <= i < ks.len() && ks[i] == k;
        assert(s[i].0 == k);
    }
}

/// What a map holds after one value was set.
pub proof fn lemma_with_entry<K, V>(s: Seq<(K, V)>, k: K, v: V, x: K)
    requires
        keys_of(s).no_duplicates(),
    ensures
        keys_of(with_entry(s, k, v)).no_duplicates(),
        lookup(with_entry(s, k, v), x) == if x == k {
            Some(v)
        } else {
            lookup(s, x)
        },
        keys_of(with_entry(s, k, v)).contains(x) <==> (x == k || keys_of(s).contains(x)),
{
    let ks = keys_of(s);
    let t = with_entry(s, k, v);
    let kt = keys_of(t);
    if ks.contains(k) {
        let p = ks.index_of(k);
        assert(0 <= p < ks.len() && ks[p] == k);
        assert(kt =~= ks);
        if x != k && ks.contains(x) {
            let q = ks.index_of(x);
            assert(0 <= q < ks.len() && ks[q] == x);
        }
    } else {
        assert(kt =~= ks.push(k));
        assert forall|i: int, j: int| 0 <= i < kt.len() && 0 <= j < kt.len() && i != j implies kt[i]
            != kt[j] by {
            if i < ks.len() && j < ks.len() {
            } else if i < ks.len() {
                assert(ks.contains(ks[i]));
            } else {
                assert(ks.contains(ks[j]));
            }
        }
        assert(kt[ks.len() as int] == k);
        lemma_lookup_at(t, s.len() as int);
        if ks.contains(x) {
            let q = ks.index_of(x);
            assert(0 <= q < ks.len() && ks[q] == x);
            assert(kt[q] == x);
            lemma_lookup_at(t, q);
        }
        if kt.contains(x) && x != k {
            let q = choose|q: int| 0 <= q < kt.len() && kt[q] == x;
            assert(ks[q] == x);
        }
    }
}

/// What a map holds after one entry was removed.
pub proof fn lemma_without_entry<K, V>(s: Seq<(K, V)>, k: K, x: K)
    requires
        keys_of(s).no_duplicates(),
    ensures
        keys_of(without_entry(s, k)).no_duplicates(),
        lookup(without_entry(s, k), x) == if x == k {
            None
        } else {
            lookup(s, x)
        },
{
    let ks = keys_of(s);
    let t = without_entry(s, k);
    let kt = keys_of(t);
    if ks.contains(k) {
        let p = ks.index_of(k);
        assert(0 <= p < ks.len() && ks[p] == k);
        assert(kt =~= ks.remove(p));
        assert forall|i: int, j: int| 0 <= i < kt.len() && 0 <= j < kt.len() && i != j implies kt[i]
            != kt[j] by {
            let ii = if i < p { i } else { i + 1 };
            let jj = if j < p { j } else { j + 1 };
            assert(ks[ii] != ks[jj]);
        }
        if kt.contains(x) {
            let q = choose|q: int| 0 <= q < kt.len() && kt[q] == x;
            let qq = if q < p { q } else { q + 1 };
            assert(ks[qq] == x);
            lemma_lookup_at(t, q);
            lemma_lookup_at(s, qq);
        }
        if ks.contains(x) && x != k {
            let q = ks.index_of(x);
            assert(0 <= q < ks.len() && ks[q] == x);
            if q < p {
                assert(kt[q] == x);
            } else {
                assert(kt[q - 1] == x);
            }
        }
    }
}

/// `s` without the entries of `keys`.
pub open spec fn without_entries<K, V>(s: Seq<(K, V)>, keys: Seq<K>) -> Seq<(K, V)>
    decreases keys.len(),
{
    if keys.len() == 0 {
        s
    } else {
        without_entry(without_entries(s, keys.drop_last()), keys.last())
    }
}

/// `s` with `v` as the value of each of `keys`.
pub open spec fn with_entries<K, V>(s: Seq<(K, V)>, keys: Seq<K>, v: V) -> Seq<(K, V)>
    decreases keys.len(),
{
    if keys.len() == 0 {
        s
    } else {
        with_entry(with_entries(s, keys.drop_last(), v), keys.last(), v)
    }
}

/// A part of a map, picked by a predicate, has no repeated keys either.
pub proof fn lemma_filter_keys<K, V>(s: Seq<(K, V)>, pred: spec_fn((K, V)) -> bool)
    requires
        keys_of(s).no_duplicates(),
    ensures
        keys_of(s.filter(pred)).no_duplicates(),
    decreases s.len(),
{
    reveal(Seq::filter);
    if s.len() > 0 {
        let t = s.drop_last();
        assert(keys_of(t) =~= keys_of(s).drop_last());
        lemma_filter_keys(t, pred);
        if pred(s.last()) {
            let f = t.filter(pred);
            let kf = keys_of(f);
            let n = f.push(s.last());
            let kn = keys_of(n);
            assert(kn =~= kf.push(s.last().0));
            assert forall|i: int, j: int| 0 <= i < kn.len() && 0 <= j < kn.len() && i != j implies kn[i]
                != kn[j] by {
                if i < kf.len() && j < kf.len() {
                } else {
                    let m = if i < kf.len() { i } else { j };
                    assert(f.contains(f[m]));
                    crate::keyset::lemma_filter_contains(t, pred, f[m]);
                    let q = choose|q: int| 0 <= q < t.len() && t[q] == f[m];
                    assert(keys_of(s)[q] == f[m].0);
                    assert(keys_of(s)[s.len() - 1] == s.last().0);
                }
            }
        }
    }
}

/// A map from keys to values, kept in the order in which the keys arrived.
pub struct KeyMap<K: Key, V: Copy> {
    entries: Vec<(K, V)>,
}

impl<K: Key, V: Copy> View for KeyMap<K, V> {
    type V = Seq<(K, V)>;

    closed spec fn view(&self) -> Seq<(K, V)> {
        self.entries@
    }
}

impl<K: Key, V: Copy> KeyMap<K, V> {
    /// No key occurs twice. Every operation keeps this.
    pub open spec fn wf(&self) -> bool {
        keys_of(self@).no_duplicates()
    }

    pub fn new() -> (m: Self)
        ensures
            m@ == Seq::<(K, V)>::empty(),
            m.wf(),
    {
        KeyMap { entries: Vec::new() }
    }

    pub fn len(&self) -> (n: usize)
        ensures
            n == self@.len(),
    {
        self.entries.len()
    }

    /// The entry at position `i`, counted in order of arrival.
    pub fn entry(&self, i: usize) -> (e: (K, V))
        requires
            i < self@.len(),
        ensures
            e == self@[i as int],
    {
        self.entries[i]
    }

    /// Where the entry of `k` stands, if there is one.
    pub fn position(&self, k: &K) -> (r: Option<usize>)
        requires
            self.wf(),
        ensures
            r is Some <==> keys_of(self@).contains(*k),
            r matches Some(i) ==> i < self@.len() && self@[i as int].0 == *k && i == keys_of(
                self@,
            ).index_of(*k),
    {
        let mut i: usize = 0;
        while i < self.entries.len()
            invariant
                self.wf(),
                i <= self.entries@.len(),
                forall|j: int| 0 <= j < i ==> (#[trigger] self.entries@[j]).0 != *k,
            decreases self.entries@.len() - i,
        {
            if self.entries[i].0.same(k) {
                proof {
                    lemma_lookup_at(self@, i as int);
                }
                return Some(i);
            }
            i += 1;
        }
        proof {
            lemma_lookup_none(self@, *k);
        }
        None
    }

    pub fn get(&self, k: &K) -> (r: Option<V>)
        requires
            self.wf(),
        ensures
            r == lookup(self@, *k),
    {
        match self.position(k) {
            Some(i) => Some(self.entries[i].1),
            None => None,
        }
    }

    pub fn contains_key(&self, k: &K) -> (b: bool)
        requires
            self.wf(),
        ensures
            b == keys_of(self@).contains(*k),
            b == lookup(self@, *k).is_some(),
    {
        self.position(k).is_some()
    }

    /// Sets the value of `k`; gives back the value it had.
    pub fn set(&mut self, k: K, v: V) -> (prev: Option<V>)
        requires
            old(self).wf(),
        ensures
            prev == lookup(old(self)@, k),
            final(self)@ == with_entry(old(self)@, k, v),
            final(self).wf(),
    {
        proof {
            lemma_with_entry(self@, k, v, k);
        }
        match self.position(&k) {
            Some(i) => {
                let prev = self.entries[i].1;
                self.entries.set(i, (k, v));
                Some(prev)
            },
            None => {
                self.entries.push((k, v));
                None
            },
        }
    }

    /// Removes the entry of `k`; gives back the value it had.
    pub fn remove(&mut self, k: &K) -> (prev: Option<V>)
        requires
            old(self).wf(),
        ensures
            prev == lookup(old(self)@, *k),
            final(self)@ == without_entry(old(self)@, *k),
            final(self).wf(),
    {
        proof {
            lemma_without_entry(self@, *k, *k);
        }
        match self.position(k) {
            Some(i) => {
                let e = self.entries.remove(i);
                Some(e.1)
            },
            None => None,
        }
    }

    /// Removes the entries of `keys`.
    pub fn remove_all(&mut self, keys: &Vec<K>)
        requires
            old(self).wf(),
        ensures
            final(self)@ == without_entries(old(self)@, keys@),
            final(self).wf(),
    {
        let mut i: usize = 0;
        while i < keys.len()
            invariant
                i <= keys@.len(),
                self.wf(),
                self@ == without_entries(old(self)@, keys@.subrange(0, i as int)),
            decreases keys@.len() - i,
        {
            assert(keys@.subrange(0, i + 1).drop_last() =~= keys@.subrange(0, i as int));
            self.remove(&keys[i]);
            i += 1;
        }
        assert(keys@.subrange(0, keys@.len() as int) =~= keys@);
    }

    /// Puts `entries` in the place of what the map holds.
    pub fn replace(&mut self, entries: Vec<(K, V)>)
        requires
            keys_of(entries@).no_duplicates(),
        ensures
            final(self)@ == entries@,
            final(self).wf(),
    {
        self.entries = entries;
    }

    /// Removes the entry at position `i`.
    pub fn remove_at(&mut self, i: usize) -> (e: (K, V))
        requires
            old(self).wf(),
            i < old(self)@.len(),
        ensures
            e == old(self)@[i as int],
            final(self)@ == old(self)@.remove(i as int),
            final(self)@ == without_entry(old(self)@, e.0),
            final(self).wf(),
    {
        proof {
            lemma_lookup_at(self@, i as int);
            lemma_without_entry(self@, self@[i as int].0, self@[i as int].0);
        }
        self.entries.remove(i)
    }
}

} // verus!
