//! A set of keys that remembers the order in which its members arrived.

use crate::ident::Key;
use vstd::prelude::*;

verus! {

/// `s` without its member `k`; `s` itself where `k` is no member.
pub open spec fn remove_key<K>(s: Seq<K>, k: K) -> Seq<K> {
    if s.contains(k) {
        s.remove(s.index_of(k))
    } else {
        s
    }
}

/// `s` with `k` added at the end, unless `k` is a member already.
pub open spec fn insert_key<K>(s: Seq<K>, k: K) -> Seq<K> {
    if s.contains(k) {
        s
    } else {
        s.push(k)
    }
}

/// The members of `s`, in order, that are no members of `t`.
pub open spec fn difference<K>(s: Seq<K>, t: Seq<K>) -> Seq<K> {
    s.filter(|k: K| !t.contains(k))
}

/// The members of `s`, in order, that are members of `t` too.
pub open spec fn intersection<K>(s: Seq<K>, t: Seq<K>) -> Seq<K> {
    s.filter(|k: K| t.contains(k))
}

/// `s` followed by the members of `t` that `s` lacks, each once, in the
/// order of their first occurrence in `t`.
pub open spec fn union<K>(s: Seq<K>, t: Seq<K>) -> Seq<K>
    decreases t.len(),
{
    if t.len() == 0 {
        s
    } else {
        insert_key(union(s, t.drop_last()), t.last())
    }
}

/// Filtering the first `i + 1` items is filtering the first `i` and then
/// deciding on item `i`.
pub proof fn lemma_filter_next<A>(s: Seq<A>, i: int, pred: spec_fn(A) -> bool)
    requires
        0 <= i < s.len(),
    ensures
        s.subrange(0, i + 1).filter(pred) == if pred(s[i]) {
            s.subrange(0, i).filter(pred).push(s[i])
        } else {
            s.subrange(0, i).filter(pred)
        },
{
    reveal(Seq::filter);
    assert(s.subrange(0, i + 1).drop_last() =~= s.subrange(0, i));
}

/// Filtering nothing gives nothing, and the whole range is the sequence.
pub proof fn lemma_filter_ends<A>(s: Seq<A>, pred: spec_fn(A) -> bool)
    ensures
        s.subrange(0, 0).filter(pred) == Seq::<A>::empty(),
        s.subrange(0, s.len() as int) == s,
{
    reveal(Seq::filter);
    assert(s.subrange(0, s.len() as int) =~= s);
}

/// What a filter keeps: exactly the items that meet the predicate.
pub proof fn lemma_filter_contains<A>(s: Seq<A>, pred: spec_fn(A) -> bool, a: A)
    ensures
        s.filter(pred).contains(a) <==> (s.contains(a) && pred(a)),
    decreases s.len(),
{
    reveal(Seq::filter);
    if s.len() > 0 {
        lemma_filter_contains(s.drop_last(), pred, a);
        let t = s.drop_last();
        if s.contains(a) {
            let i = choose|i: int| 0 <= i < s.len() && s[i] == a;
            if i < s.len() - 1 {
                assert(t[i] == a);
            }
        }
        if t.contains(a) {
            let i = choose|i: int| 0 <= i < t.len() && t[i] == a;
            assert(s[i] == a);
        }
        if pred(s.last()) {
            let f = t.filter(pred);
            assert(f.push(s.last()).last() == s.last());
            if f.contains(a) {
                let i = choose|i: int| 0 <= i < f.len() && f[i] == a;
                assert(f.push(s.last())[i] == a);
            }
            if f.push(s.last()).contains(a) {
                let i = choose|i: int| 0 <= i < f.len() + 1 && f.push(s.last())[i] == a;
                if i < f.len() {
                    assert(f[i] == a);
                }
            }
            assert(s[s.len() - 1] == s.last());
        }
    }
}

/// A filter of a sequence without repetition has none either.
pub proof fn lemma_filter_no_duplicates<A>(s: Seq<A>, pred: spec_fn(A) -> bool)
    requires
        s.no_duplicates(),
    ensures
        s.filter(pred).no_duplicates(),
    decreases s.len(),
{
    reveal(Seq::filter);
    if s.len() > 0 {
        let t = s.drop_last();
        assert(t.no_duplicates());
        lemma_filter_no_duplicates(t, pred);
        if pred(s.last()) {
            lemma_filter_contains(t, pred, s.last());
            if t.contains(s.last()) {
                let i = choose|i: int| 0 <= i < t.len() && t[i] == s.last();
                assert(s[i] == s[s.len() - 1]);
            }
            let f = t.filter(pred);
            assert forall|i: int, j: int|
                0 <= i < f.len() + 1 && 0 <= j < f.len() + 1 && i != j implies f.push(s.last())[i]
                != f.push(s.last())[j] by {
                if i < f.len() && j < f.len() {
                } else if i < f.len() {
                    assert(f.contains(f[i]));
                } else {
                    assert(f.contains(f[j]));
                }
            }
        }
    }
}

/// Membership after an insertion.
pub proof fn lemma_insert_key<K>(s: Seq<K>, k: K, x: K)
    ensures
        insert_key(s, k).contains(x) <==> (s.contains(x) || x == k),
        s.no_duplicates() ==> insert_key(s, k).no_duplicates(),
{
    if !s.contains(k) {
        let t = s.push(k);
        assert(t[s.len() as int] == k);
        if s.contains(x) {
            let i = choose|i: int| 0 <= i < s.len() && s[i] == x;
            assert(t[i] == x);
        }
        if t.contains(x) {
            let i = choose|i: int| 0 <= i < t.len() && t[i] == x;
            if i < s.len() {
                assert(s[i] == x);
            }
        }
        if s.no_duplicates() {
            assert forall|i: int, j: int| 0 <= i < t.len() && 0 <= j < t.len() && i != j implies t[i]
                != t[j] by {
                if i < s.len() && j < s.len() {
                } else if i < s.len() {
                    assert(s.contains(s[i]));
                } else {
                    assert(s.contains(s[j]));
                }
            }
        }
    }
}

/// Membership after a removal, in a sequence without repetition.
pub proof fn lemma_remove_key<K>(s: Seq<K>, k: K, x: K)
    requires
        s.no_duplicates(),
    ensures
        remove_key(s, k).contains(x) <==> (s.contains(x) && x != k),
        remove_key(s, k).no_duplicates(),
{
    if s.contains(k) {
        let p = s.index_of(k);
        let t = s.remove(p);
        assert(0 <= p < s.len() && s[p] == k);
        if s.contains(x) && x != k {
            let i = choose|i: int| 0 <= i < s.len() && s[i] == x;
            if i < p {
                assert(t[i] == x);
            } else {
                assert(t[i - 1] == x);
            }
        }
        if t.contains(x) {
            let i = choose|i: int| 0 <= i < t.len() && t[i] == x;
            if i < p {
                assert(s[i] == x);
            } else {
                assert(s[i + 1] == x);
            }
        }
        assert forall|i: int, j: int| 0 <= i < t.len() && 0 <= j < t.len() && i != j implies t[i]
            != t[j] by {
            let ii = if i < p { i } else { i + 1 };
            let jj = if j < p { j } else { j + 1 };
            assert(s[ii] != s[jj]);
        }
    }
}

/// Membership in a union.
pub proof fn lemma_union<K>(s: Seq<K>, t: Seq<K>, x: K)
    ensures
        union(s, t).contains(x) <==> (s.contains(x) || t.contains(x)),
        s.no_duplicates() ==> union(s, t).no_duplicates(),
    decreases t.len(),
{
    if t.len() > 0 {
        let d = t.drop_last();
        lemma_union(s, d, x);
        lemma_insert_key(union(s, d), t.last(), x);
        assert(t[t.len() - 1] == t.last());
        if d.contains(x) {
            let i = choose|i: int| 0 <= i < d.len() && d[i] == x;
            assert(t[i] == x);
        }
        if t.contains(x) && x != t.last() {
            let i = choose|i: int| 0 <= i < t.len() && t[i] == x;
            assert(d[i] == x);
        }
    }
}

/// The members of `t` that `s` lacks, each once, in the order of their first
/// occurrence in `t`.
pub open spec fn news<K>(s: Seq<K>, t: Seq<K>) -> Seq<K>
    decreases t.len(),
{
    if t.len() == 0 {
        Seq::empty()
    } else {
        let r = news(s, t.drop_last());
        if s.contains(t.last()) || r.contains(t.last()) {
            r
        } else {
            r.push(t.last())
        }
    }
}

/// What is new in `t` is what `t` holds and `s` lacks; a union is the old
/// members followed by the new ones.
pub proof fn lemma_news<K>(s: Seq<K>, t: Seq<K>, x: K)
    ensures
        news(s, t).contains(x) <==> (t.contains(x) && !s.contains(x)),
        news(s, t).no_duplicates(),
        union(s, t) == s + news(s, t),
    decreases t.len(),
{
    if t.len() > 0 {
        let d = t.drop_last();
        let r = news(s, d);
        lemma_news(s, d, x);
        lemma_news(s, d, t.last());
        lemma_union(s, d, t.last());
        assert(t[t.len() - 1] == t.last());
        if d.contains(x) {
            let i = choose|i: int| 0 <= i < d.len() && d[i] == x;
            assert(t[i] == x);
        }
        if t.contains(x) && x != t.last() {
            let i = choose|i: int| 0 <= i < t.len() && t[i] == x;
            assert(d[i] == x);
        }
        if s.contains(t.last()) || r.contains(t.last()) {
        } else {
            let n = r.push(t.last());
            assert(n[r.len() as int] == t.last());
            if r.contains(x) {
                let i = choose|i: int| 0 <= i < r.len() && r[i] == x;
                assert(n[i] == x);
            }
            if n.contains(x) {
                let i = choose|i: int| 0 <= i < n.len() && n[i] == x;
                if i < r.len() {
                    assert(r[i] == x);
                }
            }
            assert forall|i: int, j: int| 0 <= i < n.len() && 0 <= j < n.len() && i != j implies n[i]
                != n[j] by {
                if i < r.len() && j < r.len() {
                } else if i < r.len() {
                    assert(r.contains(r[i]));
                } else {
                    assert(r.contains(r[j]));
                }
            }
            assert(s + n =~= (s + r).push(t.last()));
        }
    } else {
        assert(s + Seq::<K>::empty() =~= s);
    }
}

/// Membership in a difference and in an intersection.
pub proof fn lemma_difference<K>(s: Seq<K>, t: Seq<K>, x: K)
    ensures
        difference(s, t).contains(x) <==> (s.contains(x) && !t.contains(x)),
        intersection(s, t).contains(x) <==> (s.contains(x) && t.contains(x)),
        s.no_duplicates() ==> difference(s, t).no_duplicates() && intersection(s, t).no_duplicates(),
{
    lemma_filter_contains(s, |k: K| !t.contains(k), x);
    lemma_filter_contains(s, |k: K| t.contains(k), x);
    if s.no_duplicates() {
        lemma_filter_no_duplicates(s, |k: K| !t.contains(k));
        lemma_filter_no_duplicates(s, |k: K| t.contains(k));
    }
}

/// A union of a sequence without repetition has none; neither has what is
/// new in a sequence, nor a difference or an intersection of a sequence
/// without repetition.
pub proof fn lemma_distinct<K>(s: Seq<K>, t: Seq<K>)
    ensures
        news(s, t).no_duplicates(),
        s.no_duplicates() ==> union(s, t).no_duplicates() && difference(s, t).no_duplicates()
            && intersection(s, t).no_duplicates(),
    decreases t.len(),
{
    if t.len() > 0 {
        lemma_distinct(s, t.drop_last());
        lemma_news(s, t, t.last());
        lemma_union(s, t, t.last());
    }
    if s.no_duplicates() {
        lemma_filter_no_duplicates(s, |k: K| !t.contains(k));
        lemma_filter_no_duplicates(s, |k: K| t.contains(k));
    }
}

/// A set of keys, kept in the order of arrival, each key once.
pub struct KeySet<K: Key> {
    items: Vec<K>,
}

impl<K: Key> View for KeySet<K> {
    type V = Seq<K>;

    closed spec fn view(&self) -> Seq<K> {
        self.items@
    }
}

impl<K: Key> KeySet<K> {
    /// No key occurs twice. Every operation keeps this.
    pub open spec fn wf(&self) -> bool {
        self@.no_duplicates()
    }

    pub fn new() -> (s: Self)
        ensures
            s@ == Seq::<K>::empty(),
            s.wf(),
    {
        KeySet { items: Vec::new() }
    }

    pub fn len(&self) -> (n: usize)
        ensures
            n == self@.len(),
    {
        self.items.len()
    }

    pub fn is_empty(&self) -> (b: bool)
        ensures
            b == (self@.len() == 0),
    {
        self.items.len() == 0
    }

    /// The key at position `i`, counted in order of arrival.
    pub fn get(&self, i: usize) -> (k: K)
        requires
            i < self@.len(),
        ensures
            k == self@[i as int],
    {
        self.items[i]
    }

    /// Where `k` stands, if it is a member.
    pub fn position(&self, k: &K) -> (r: Option<usize>)
        requires
            self.wf(),
        ensures
            r is Some <==> self@.contains(*k),
            r matches Some(i) ==> i < self@.len() && self@[i as int] == *k && i == self@.index_of(
                *k,
            ),
    {
        let mut i: usize = 0;
        while i < self.items.len()
            invariant
                self.wf(),
                i <= self.items@.len(),
                forall|j: int| 0 <= j < i ==> self.items@[j] != *k,
            decreases self.items@.len() - i,
        {
            if self.items[i].same(k) {
                proof {
                    let p = self.items@.index_of(*k);
                    assert(self.items@[i as int] == *k);
                    assert(0 <= p < self.items@.len() && self.items@[p] == *k);
                }
                return Some(i);
            }
            i += 1;
        }
        None
    }

    pub fn contains(&self, k: &K) -> (b: bool)
        requires
            self.wf(),
        ensures
            b == self@.contains(*k),
    {
        self.position(k).is_some()
    }

    /// Adds `k` unless it is a member; says whether it was added.
    pub fn insert(&mut self, k: K) -> (added: bool)
        requires
            old(self).wf(),
        ensures
            added == !old(self)@.contains(k),
            final(self)@ == insert_key(old(self)@, k),
            final(self).wf(),
    {
        proof {
            lemma_insert_key(self@, k, k);
        }
        if self.contains(&k) {
            false
        } else {
            self.items.push(k);
            true
        }
    }

    /// Removes `k` if it is a member; says whether it was.
    pub fn remove(&mut self, k: &K) -> (removed: bool)
        requires
            old(self).wf(),
        ensures
            removed == old(self)@.contains(*k),
            final(self)@ == remove_key(old(self)@, *k),
            final(self).wf(),
    {
        proof {
            lemma_remove_key(self@, *k, *k);
        }
        match self.position(k) {
            Some(i) => {
                self.items.remove(i);
                true
            },
            None => false,
        }
    }

    /// The members in order of arrival.
    pub fn to_vec(&self) -> (v: Vec<K>)
        ensures
            v@ == self@,
    {
        let mut v: Vec<K> = Vec::new();
        let mut i: usize = 0;
        while i < self.items.len()
            invariant
                i <= self.items@.len(),
                v@ == self.items@.subrange(0, i as int),
            decreases self.items@.len() - i,
        {
            v.push(self.items[i]);
            assert(self.items@.subrange(0, i + 1) == self.items@.subrange(0, i as int).push(
                self.items@[i as int],
            ));
            i += 1;
        }
        assert(self.items@.subrange(0, self.items@.len() as int) == self.items@);
        v
    }

    /// Removes the `n` oldest members.
    pub fn drop_front(&mut self, n: usize)
        requires
            old(self).wf(),
            n <= old(self)@.len(),
        ensures
            final(self)@ == old(self)@.subrange(n as int, old(self)@.len() as int),
            final(self).wf(),
    {
        let mut out: Vec<K> = Vec::new();
        let mut i: usize = n;
        while i < self.items.len()
            invariant
                n <= i <= self.items@.len(),
                out@ == self.items@.subrange(n as int, i as int),
            decreases self.items@.len() - i,
        {
            out.push(self.items[i]);
            assert(self.items@.subrange(n as int, i + 1) == self.items@.subrange(
                n as int,
                i as int,
            ).push(self.items@[i as int]));
            i += 1;
        }
        self.items = out;
    }

    /// Puts `items` in the place of the members.
    pub fn replace(&mut self, items: Vec<K>)
        requires
            items@.no_duplicates(),
        ensures
            final(self)@ == items@,
            final(self).wf(),
    {
        self.items = items;
    }

    /// A second set with the same members in the same order.
    pub fn duplicate(&self) -> (s: Self)
        ensures
            s@ == self@,
    {
        KeySet { items: self.to_vec() }
    }

    /// Adds every key of `keys` that is no member yet. Returns the keys that
    /// were added, in the order in which they were.
    pub fn extend_new(&mut self, keys: &Vec<K>) -> (added: Vec<K>)
        requires
            old(self).wf(),
        ensures
            final(self)@ == union(old(self)@, keys@),
            added@ == news(old(self)@, keys@),
            final(self).wf(),
    {
        let mut added: Vec<K> = Vec::new();
        let mut i: usize = 0;
        while i < keys.len()
            invariant
                i <= keys@.len(),
                self@ == union(old(self)@, keys@.subrange(0, i as int)),
                added@ == news(old(self)@, keys@.subrange(0, i as int)),
                self.wf(),
            decreases keys@.len() - i,
        {
            proof {
                assert(keys@.subrange(0, i + 1).drop_last() == keys@.subrange(0, i as int));
                lemma_union(old(self)@, keys@.subrange(0, i as int), keys@[i as int]);
                lemma_news(old(self)@, keys@.subrange(0, i as int), keys@[i as int]);
            }
            if self.insert(keys[i]) {
                added.push(keys[i]);
            }
            i += 1;
        }
        assert(keys@.subrange(0, keys@.len() as int) == keys@);
        added
    }

    /// Adds every key of `keys` that is no member yet.
    pub fn extend(&mut self, keys: &Vec<K>)
        requires
            old(self).wf(),
        ensures
            final(self)@ == union(old(self)@, keys@),
            final(self).wf(),
    {
        let _ = self.extend_new(keys);
    }

    /// Removes every member that occurs in `keys`.
    pub fn remove_all(&mut self, keys: &Vec<K>)
        requires
            old(self).wf(),
        ensures
            final(self)@ == difference(old(self)@, keys@),
            final(self).wf(),
    {
        proof {
            lemma_filter_no_duplicates(self@, |k: K| !keys@.contains(k));
        }
        let mut out: Vec<K> = Vec::new();
        let mut i: usize = 0;
        let ghost pred = |k: K| !keys@.contains(k);
        proof {
            lemma_filter_ends(self.items@, pred);
        }
        while i < self.items.len()
            invariant
                i <= self.items@.len(),
                pred == (|k: K| !keys@.contains(k)),
                out@ == self.items@.subrange(0, i as int).filter(pred),
            decreases self.items@.len() - i,
        {
            proof {
                lemma_filter_next(self.items@, i as int, pred);
            }
            let k = self.items[i];
            if !vec_contains(keys, &k) {
                out.push(k);
            }
            i += 1;
        }
        proof {
            lemma_filter_ends(self.items@, pred);
        }
        self.items = out;
    }
}

/// Whether `k` occurs in `v`.
pub fn vec_contains<K: Key>(v: &Vec<K>, k: &K) -> (b: bool)
    ensures
        b == v@.contains(*k),
{
    let mut i: usize = 0;
    while i < v.len()
        invariant
            i <= v@.len(),
            forall|j: int| 0 <= j < i ==> v@[j] != *k,
        decreases v@.len() - i,
    {
        if v[i].same(k) {
            return true;
        }
        i += 1;
    }
    false
}

/// The items of `v`, in order, that are no members of `set`.
pub fn retain_not_in<K: Key>(v: &Vec<K>, set: &KeySet<K>) -> (out: Vec<K>)
    requires
        set.wf(),
    ensures
        out@ == difference(v@, set@),
{
    let ghost pred = |k: K| !set@.contains(k);
    let mut out: Vec<K> = Vec::new();
    let mut i: usize = 0;
    proof {
        lemma_filter_ends(v@, pred);
    }
    while i < v.len()
        invariant
            set.wf(),
            i <= v@.len(),
            pred == (|k: K| !set@.contains(k)),
            out@ == v@.subrange(0, i as int).filter(pred),
        decreases v@.len() - i,
    {
        proof {
            lemma_filter_next(v@, i as int, pred);
        }
        let k = v[i];
        if !set.contains(&k) {
            out.push(k);
        }
        i += 1;
    }
    out
}

/// The items of `v`, in order, that are members of `set`.
pub fn retain_in<K: Key>(v: &Vec<K>, set: &KeySet<K>) -> (out: Vec<K>)
    requires
        set.wf(),
    ensures
        out@ == intersection(v@, set@),
{
    let ghost pred = |k: K| set@.contains(k);
    let mut out: Vec<K> = Vec::new();
    let mut i: usize = 0;
    proof {
        lemma_filter_ends(v@, pred);
    }
    while i < v.len()
        invariant
            set.wf(),
            i <= v@.len(),
            pred == (|k: K| set@.contains(k)),
            out@ == v@.subrange(0, i as int).filter(pred),
        decreases v@.len() - i,
    {
        proof {
            lemma_filter_next(v@, i as int, pred);
        }
        let k = v[i];
        if set.contains(&k) {
            out.push(k);
        }
        i += 1;
    }
    out
}

/// The items of `v`, in order, that occur in `other`.
pub fn retain_in_vec<K: Key>(v: &Vec<K>, other: &Vec<K>) -> (out: Vec<K>)
    ensures
        out@ == intersection(v@, other@),
{
    let ghost pred = |k: K| other@.contains(k);
    let mut out: Vec<K> = Vec::new();
    let mut i: usize = 0;
    proof {
        lemma_filter_ends(v@, pred);
    }
    while i < v.len()
        invariant
            i <= v@.len(),
            pred == (|k: K| other@.contains(k)),
            out@ == v@.subrange(0, i as int).filter(pred),
        decreases v@.len() - i,
    {
        proof {
            lemma_filter_next(v@, i as int, pred);
        }
        let k = v[i];
        if vec_contains(other, &k) {
            out.push(k);
        }
        i += 1;
    }
    out
}

/// The items of `v`, each once, in the order of their first occurrence.
pub fn distinct<K: Key>(v: &Vec<K>) -> (out: Vec<K>)
    ensures
        out@ == news(Seq::<K>::empty(), v@),
        out@.no_duplicates(),
{
    let mut set: KeySet<K> = KeySet::new();
    let out = set.extend_new(v);
    proof {
        lemma_distinct(Seq::<K>::empty(), v@);
    }
    out
}

} // verus!
