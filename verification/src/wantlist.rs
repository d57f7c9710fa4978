//! The list of wanted blocks: one entry per content identifier, highest
//! priority first, and first come first among equal priorities.

use crate::ident::{Cid, Key};
use crate::keyset::KeySet;
use vstd::prelude::*;

verus! {

/// What is asked of a peer about a block.
#[derive(Clone, Copy, PartialEq, Eq, Structural, Hash, Debug)]
pub enum WantType {
    /// Send the block itself.
    Block,
    /// Say whether you have the block.
    Have,
}

/// One entry of a wantlist.
#[derive(Clone, Copy, PartialEq, Eq, Structural, Debug)]
pub struct Entry {
    pub cid: Cid,
    pub priority: i32,
    pub want_type: WantType,
    pub cancel: bool,
    pub send_dont_have: bool,
}

/// The identifiers of the entries, in order.
pub open spec fn cids_of(s: Seq<Entry>) -> Seq<Cid> {
    s.map_values(|e: Entry| e.cid)
}

/// No later entry has a higher priority than an earlier one.
pub open spec fn by_priority(s: Seq<Entry>) -> bool {
    forall|i: int, j: int| 0 <= i < j < s.len() ==> s[i].priority >= s[j].priority
}

/// How many entries at the head of `s` have priority `p` or more: the place
/// at which a new entry of priority `p` belongs.
pub open spec fn slot(s: Seq<Entry>, p: i32) -> int
    decreases s.len(),
{
    if s.len() == 0 || s[0].priority < p {
        0
    } else {
        1 + slot(s.drop_first(), p)
    }
}

/// The entry with identifier `cid`, if there is one.
pub open spec fn entry_of(s: Seq<Entry>, cid: Cid) -> Option<Entry> {
    if cids_of(s).contains(cid) {
        Some(s[cids_of(s).index_of(cid)])
    } else {
        None
    }
}

/// Whether adding `e` changes the list: its identifier is new, or it asks
/// for the block where only a have was asked.
pub open spec fn accepts(s: Seq<Entry>, e: Entry) -> bool {
    match entry_of(s, e.cid) {
        None => true,
        Some(old) => old.want_type == WantType::Have && e.want_type == WantType::Block,
    }
}

/// The list after `e` was added. An entry for a new identifier goes behind
/// the entries of the same or a higher priority. An entry that upgrades a
/// have to a block replaces the old one. Anything else is ignored.
pub open spec fn added(s: Seq<Entry>, e: Entry) -> Seq<Entry> {
    if !accepts(s, e) {
        s
    } else {
        let rest = removed(s, e.cid);
        rest.insert(slot(rest, e.priority), e)
    }
}

/// The list without the entry of `cid`.
pub open spec fn removed(s: Seq<Entry>, cid: Cid) -> Seq<Entry> {
    if cids_of(s).contains(cid) {
        s.remove(cids_of(s).index_of(cid))
    } else {
        s
    }
}

/// A list is well formed when no identifier occurs twice and the entries
/// stand by falling priority.
pub open spec fn well_formed(s: Seq<Entry>) -> bool {
    cids_of(s).no_duplicates() && by_priority(s)
}

/// The slot lies within the list, everything before it has at least the
/// priority, and in a list ordered by priority everything from it on has less.
pub proof fn lemma_slot(s: Seq<Entry>, p: i32)
    ensures
        0 <= slot(s, p) <= s.len(),
        forall|j: int| 0 <= j < slot(s, p) ==> (#[trigger] s[j]).priority >= p,
        slot(s, p) < s.len() ==> s[slot(s, p)].priority < p,
        by_priority(s) ==> forall|j: int| slot(s, p) <= j < s.len() ==> (#[trigger] s[j]).priority < p,
    decreases s.len(),
{
    if s.len() == 0 || s[0].priority < p {
    } else {
        let t = s.drop_first();
        lemma_slot(t, p);
        assert forall|j: int| 0 <= j < slot(s, p) implies (#[trigger] s[j]).priority >= p by {
            if j > 0 {
                assert(t[j - 1] == s[j]);
            }
        }
        if slot(s, p) < s.len() {
            assert(t[slot(t, p)] == s[slot(s, p)]);
        }
    }
}

/// Removing an entry keeps a list well formed, and only that entry goes.
pub proof fn lemma_removed(s: Seq<Entry>, cid: Cid, x: Cid)
    requires
        well_formed(s),
    ensures
        well_formed(removed(s, cid)),
        entry_of(removed(s, cid), x) == if x == cid {
            None
        } else {
            entry_of(s, x)
        },
{
    let ks = cids_of(s);
    let t = removed(s, cid);
    let kt = cids_of(t);
    if ks.contains(cid) {
        let p = ks.index_of(cid);
        assert(0 <= p < ks.len() && ks[p] == cid);
        assert(kt =~= ks.remove(p));
        assert forall|i: int, j: int| 0 <= i < kt.len() && 0 <= j < kt.len() && i != j implies kt[i]
            != kt[j] by {
            let ii = if i < p { i } else { i + 1 };
            let jj = if j < p { j } else { j + 1 };
            assert(ks[ii] != ks[jj]);
        }
        assert forall|i: int, j: int| 0 <= i < j < t.len() implies t[i].priority
            >= t[j].priority by {
            let ii = if i < p { i } else { i + 1 };
            let jj = if j < p { j } else { j + 1 };
            assert(s[ii].priority >= s[jj].priority);
        }
        if kt.contains(x) {
            let q = kt.index_of(x);
            assert(0 <= q < kt.len() && kt[q] == x);
            let qq = if q < p { q } else { q + 1 };
            assert(ks[qq] == x);
            let r = ks.index_of(x);
            assert(0 <= r < ks.len() && ks[r] == x);
        }
        if ks.contains(x) && x != cid {
            let q = ks.index_of(x);
            assert(0 <= q < ks.len() && ks[q] == x);
            if q < p {
                assert(kt[q] == x);
            } else {
                assert(kt[q - 1] == x);
            }
        }
    }
}

/// Adding an entry keeps a list well formed; afterwards the list holds the
/// entry it accepted, or else what it held, and every other identifier keeps
/// its entry.
pub proof fn lemma_added(s: Seq<Entry>, e: Entry, x: Cid)
    requires
        well_formed(s),
    ensures
        well_formed(added(s, e)),
        entry_of(added(s, e), x) == if x == e.cid && accepts(s, e) {
            Some(e)
        } else {
            entry_of(s, x)
        },
{
    if accepts(s, e) {
        let rest = removed(s, e.cid);
        lemma_removed(s, e.cid, x);
        lemma_removed(s, e.cid, e.cid);
        lemma_slot(rest, e.priority);
        let p = slot(rest, e.priority);
        let t = rest.insert(p, e);
        let kr = cids_of(rest);
        let kt = cids_of(t);
        assert(kt =~= kr.insert(p, e.cid));
        assert forall|i: int, j: int| 0 <= i < kt.len() && 0 <= j < kt.len() && i != j implies kt[i]
            != kt[j] by {
            let ii = if i < p { i } else { i - 1 };
            let jj = if j < p { j } else { j - 1 };
            if i == p {
                assert(kr.contains(kr[jj]));
            } else if j == p {
                assert(kr.contains(kr[ii]));
            } else {
                assert(kr[ii] != kr[jj]);
            }
        }
        assert forall|i: int, j: int| 0 <= i < j < t.len() implies t[i].priority
            >= t[j].priority by {
            let ii = if i < p { i } else { i - 1 };
            let jj = if j < p { j } else { j - 1 };
            if i == p {
                assert(rest[jj].priority < e.priority);
            } else if j == p {
                assert(rest[ii].priority >= e.priority);
            } else {
                assert(rest[ii].priority >= rest[jj].priority);
            }
        }
        assert(kt[p] == e.cid);
        let pe = kt.index_of(e.cid);
        assert(0 <= pe < kt.len() && kt[pe] == e.cid);
        if x != e.cid {
            if kr.contains(x) {
                let q = kr.index_of(x);
                assert(0 <= q < kr.len() && kr[q] == x);
                let qq = if q < p { q } else { q + 1 };
                assert(kt[qq] == x);
                let r = kt.index_of(x);
                assert(0 <= r < kt.len() && kt[r] == x);
            }
            if kt.contains(x) {
                let q = kt.index_of(x);
                assert(0 <= q < kt.len() && kt[q] == x);
                let qq = if q < p { q } else { q - 1 };
                assert(kr[qq] == x);
                let r = kr.index_of(x);
                assert(0 <= r < kr.len() && kr[r] == x);
            }
        }
    }
}

/// The list after a want of kind `want_type` and priority `priority` was added
/// for each of `cids` in turn.
pub open spec fn added_all(
    s: Seq<Entry>,
    cids: Seq<Cid>,
    priority: i32,
    want_type: WantType,
    send_dont_have: bool,
) -> Seq<Entry>
    decreases cids.len(),
{
    if cids.len() == 0 {
        s
    } else {
        added(
            added_all(s, cids.drop_last(), priority, want_type, send_dont_have),
            (Entry { cid: cids.last(), priority, want_type, cancel: false, send_dont_have }),
        )
    }
}

/// The list after each of `entries` was added in turn, except those whose
/// identifier is in `skip`.
pub open spec fn added_entries(s: Seq<Entry>, entries: Seq<Entry>, skip: Seq<Cid>) -> Seq<Entry>
    decreases entries.len(),
{
    if entries.len() == 0 {
        s
    } else {
        let r = added_entries(s, entries.drop_last(), skip);
        if skip.contains(entries.last().cid) || entries.last().cancel {
            r
        } else {
            added(r, entries.last())
        }
    }
}

/// The list without the entries of `cids`.
pub open spec fn removed_all(s: Seq<Entry>, cids: Seq<Cid>) -> Seq<Entry>
    decreases cids.len(),
{
    if cids.len() == 0 {
        s
    } else {
        removed(removed_all(s, cids.drop_last()), cids.last())
    }
}

/// A part of a well-formed list is well formed.
pub proof fn lemma_subrange_wf(s: Seq<Entry>, a: int, b: int)
    requires
        well_formed(s),
        0 <= a <= b <= s.len(),
    ensures
        well_formed(s.subrange(a, b)),
{
    let t = s.subrange(a, b);
    let ks = cids_of(s);
    let kt = cids_of(t);
    assert forall|i: int, j: int| 0 <= i < kt.len() && 0 <= j < kt.len() && i != j implies kt[i]
        != kt[j] by {
        assert(ks[a + i] != ks[a + j]);
    }
}

/// Removing several entries keeps a list well formed; the entries named are
/// gone and every other identifier keeps its entry.
pub proof fn lemma_removed_all(s: Seq<Entry>, cids: Seq<Cid>, x: Cid)
    requires
        well_formed(s),
    ensures
        well_formed(removed_all(s, cids)),
        entry_of(removed_all(s, cids), x) == if cids.contains(x) {
            None
        } else {
            entry_of(s, x)
        },
    decreases cids.len(),
{
    if cids.len() > 0 {
        let d = cids.drop_last();
        lemma_removed_all(s, d, x);
        lemma_removed(removed_all(s, d), cids.last(), x);
        assert(cids[cids.len() - 1] == cids.last());
        if d.contains(x) {
            let i = choose|i: int| 0 <= i < d.len() && d[i] == x;
            assert(cids[i] == x);
        }
        if cids.contains(x) && x != cids.last() {
            let i = choose|i: int| 0 <= i < cids.len() && cids[i] == x;
            assert(d[i] == x);
        }
    }
}

/// Removing entries makes a list no longer.
pub proof fn lemma_removed_all_len(s: Seq<Entry>, cids: Seq<Cid>)
    ensures
        removed_all(s, cids).len() <= s.len(),
    decreases cids.len(),
{
    if cids.len() > 0 {
        lemma_removed_all_len(s, cids.drop_last());
    }
}

/// Wants for one block are gathered into one entry: a want for a block that
/// has an entry leaves the list as long as it was, whether it is ignored or
/// replaces the entry; only a want for a new block makes the list longer.
pub proof fn lemma_wants_coalesce(s: Seq<Entry>, e: Entry)
    requires
        well_formed(s),
    ensures
        added(s, e).len() == if entry_of(s, e.cid) is Some {
            s.len()
        } else {
            s.len() + 1
        },
{
    if accepts(s, e) {
        lemma_slot(removed(s, e.cid), e.priority);
        if cids_of(s).contains(e.cid) {
            let p = cids_of(s).index_of(e.cid);
            assert(0 <= p < s.len());
        }
    }
}

/// A want for a block is never replaced by a want for a have: once a list
/// asks for the block itself, it goes on doing so whatever is added.
pub proof fn lemma_never_downgrades(s: Seq<Entry>, e: Entry, cid: Cid)
    requires
        well_formed(s),
        entry_of(s, cid) matches Some(held) && held.want_type == WantType::Block,
    ensures
        entry_of(added(s, e), cid) == entry_of(s, cid),
{
    lemma_added(s, e, cid);
}

/// After wants were added for some blocks, the list holds an entry for
/// each of them, and stays well formed.
pub proof fn lemma_added_all(
    s: Seq<Entry>,
    cids: Seq<Cid>,
    priority: i32,
    want_type: WantType,
    send_dont_have: bool,
    x: Cid,
)
    requires
        well_formed(s),
    ensures
        well_formed(added_all(s, cids, priority, want_type, send_dont_have)),
        cids.contains(x) || entry_of(s, x) is Some ==> entry_of(
            added_all(s, cids, priority, want_type, send_dont_have),
            x,
        ) is Some,
    decreases cids.len(),
{
    if cids.len() > 0 {
        let d = cids.drop_last();
        let r = added_all(s, d, priority, want_type, send_dont_have);
        let e = Entry { cid: cids.last(), priority, want_type, cancel: false, send_dont_have };
        lemma_added_all(s, d, priority, want_type, send_dont_have, x);
        lemma_added(r, e, x);
        if cids.contains(x) && x != cids.last() {
            let i = choose|i: int| 0 <= i < cids.len() && cids[i] == x;
            assert(d[i] == x);
        }
    }
}

/// A wantlist.
pub struct Wantlist {
    entries: Vec<Entry>,
}

impl View for Wantlist {
    type V = Seq<Entry>;

    closed spec fn view(&self) -> Seq<Entry> {
        self.entries@
    }
}

impl Wantlist {
    /// No identifier occurs twice, and the entries stand by falling priority.
    pub open spec fn wf(&self) -> bool {
        well_formed(self@)
    }

    pub fn new() -> (w: Self)
        ensures
            w@ == Seq::<Entry>::empty(),
            w.wf(),
    {
        let w = Wantlist { entries: Vec::new() };
        assert(cids_of(w@) =~= Seq::<Cid>::empty());
        w
    }

    pub fn len(&self) -> (n: usize)
        ensures
            n == self@.len(),
    {
        self.entries.len()
    }

    pub fn is_empty(&self) -> (b: bool)
        ensures
            b == (self@.len() == 0),
    {
        self.entries.len() == 0
    }

    fn position(&self, cid: &Cid) -> (r: Option<usize>)
        requires
            self.wf(),
        ensures
            r is Some <==> cids_of(self@).contains(*cid),
            r matches Some(i) ==> i < self@.len() && self@[i as int].cid == *cid && i == cids_of(
                self@,
            ).index_of(*cid),
    {
        let ghost ks = cids_of(self@);
        let mut i: usize = 0;
        while i < self.entries.len()
            invariant
                self.wf(),
                ks == cids_of(self@),
                i <= self.entries@.len(),
                forall|j: int| 0 <= j < i ==> ks[j] != *cid,
            decreases self.entries@.len() - i,
        {
            if self.entries[i].cid.same(cid) {
                proof {
                    assert(ks[i as int] == *cid);
                    let p = ks.index_of(*cid);
                    assert(0 <= p < ks.len() && ks[p] == *cid);
                }
                return Some(i);
            }
            i += 1;
        }
        None
    }

    pub fn contains(&self, cid: &Cid) -> (b: bool)
        requires
            self.wf(),
        ensures
            b == cids_of(self@).contains(*cid),
            b == entry_of(self@, *cid).is_some(),
    {
        self.position(cid).is_some()
    }

    /// The entry of `cid`, if there is one.
    pub fn get(&self, cid: &Cid) -> (r: Option<Entry>)
        requires
            self.wf(),
        ensures
            r == entry_of(self@, *cid),
    {
        match self.position(cid) {
            Some(i) => Some(self.entries[i]),
            None => None,
        }
    }

    /// Adds a want for `cid`. Returns whether the list changed: a want for a
    /// new identifier is added, a want for the block replaces a want for a
    /// have, anything else is ignored.
    pub fn add(&mut self, cid: Cid, priority: i32, want_type: WantType) -> (changed: bool)
        requires
            old(self).wf(),
        ensures
            changed == accepts(
                old(self)@,
                (Entry { cid, priority, want_type, cancel: false, send_dont_have: false }),
            ),
            final(self)@ == added(
                old(self)@,
                (Entry { cid, priority, want_type, cancel: false, send_dont_have: false }),
            ),
            final(self).wf(),
    {
        self.add_entry(Entry { cid, priority, want_type, cancel: false, send_dont_have: false })
    }

    /// Adds `e` as [`Wantlist::add`] does, with the flags it carries.
    pub fn add_entry(&mut self, e: Entry) -> (changed: bool)
        requires
            old(self).wf(),
        ensures
            changed == accepts(old(self)@, e),
            final(self)@ == added(old(self)@, e),
            final(self).wf(),
    {
        proof {
            lemma_added(self@, e, e.cid);
            lemma_removed(self@, e.cid, e.cid);
        }
        match self.position(&e.cid) {
            Some(i) => {
                let old_entry = self.entries[i];
                let upgrade = match (old_entry.want_type, e.want_type) {
                    (WantType::Have, WantType::Block) => true,
                    _ => false,
                };
                if !upgrade {
                    return false;
                }
                self.entries.remove(i);
            },
            None => {},
        }
        let at = self.slot_for(e.priority);
        self.entries.insert(at, e);
        true
    }

    /// The place at which an entry of priority `p` belongs.
    fn slot_for(&self, p: i32) -> (at: usize)
        ensures
            at == slot(self@, p),
            at <= self@.len(),
    {
        let ghost s = self@;
        let mut i: usize = 0;
        proof {
            assert(s.subrange(0, s.len() as int) =~= s);
            lemma_slot(s, p);
        }
        while i < self.entries.len() && self.entries[i].priority >= p
            invariant
                s == self@,
                i <= s.len(),
                slot(s, p) == i + slot(s.subrange(i as int, s.len() as int), p),
            decreases s.len() - i,
        {
            proof {
                let t = s.subrange(i as int, s.len() as int);
                assert(t[0] == s[i as int]);
                assert(t.drop_first() =~= s.subrange(i + 1, s.len() as int));
            }
            i += 1;
        }
        proof {
            let t = s.subrange(i as int, s.len() as int);
            if i < s.len() {
                assert(t[0] == s[i as int]);
            }
        }
        i
    }

    /// Removes the entry of `cid` and gives it back.
    pub fn remove(&mut self, cid: &Cid) -> (r: Option<Entry>)
        requires
            old(self).wf(),
        ensures
            r == entry_of(old(self)@, *cid),
            final(self)@ == removed(old(self)@, *cid),
            final(self).wf(),
    {
        proof {
            lemma_removed(self@, *cid, *cid);
        }
        match self.position(cid) {
            Some(i) => Some(self.entries.remove(i)),
            None => None,
        }
    }

    /// Adds a want of kind `want_type` and priority `priority` for each of
    /// `cids`.
    pub fn add_all(
        &mut self,
        cids: &Vec<Cid>,
        priority: i32,
        want_type: WantType,
        send_dont_have: bool,
    )
        requires
            old(self).wf(),
        ensures
            final(self)@ == added_all(old(self)@, cids@, priority, want_type, send_dont_have),
            final(self).wf(),
    {
        let mut i: usize = 0;
        while i < cids.len()
            invariant
                i <= cids@.len(),
                self.wf(),
                self@ == added_all(
                    old(self)@,
                    cids@.subrange(0, i as int),
                    priority,
                    want_type,
                    send_dont_have,
                ),
            decreases cids@.len() - i,
        {
            assert(cids@.subrange(0, i + 1).drop_last() =~= cids@.subrange(0, i as int));
            self.add_entry(
                Entry { cid: cids[i], priority, want_type, cancel: false, send_dont_have },
            );
            i += 1;
        }
        assert(cids@.subrange(0, cids@.len() as int) =~= cids@);
    }

    /// Adds each of `entries` that is no cancel and whose identifier is not
    /// in `skip`.
    pub fn add_entries(&mut self, entries: &Vec<Entry>, skip: &KeySet<Cid>)
        requires
            old(self).wf(),
            skip.wf(),
        ensures
            final(self)@ == added_entries(old(self)@, entries@, skip@),
            final(self).wf(),
    {
        let mut i: usize = 0;
        while i < entries.len()
            invariant
                i <= entries@.len(),
                self.wf(),
                skip.wf(),
                self@ == added_entries(old(self)@, entries@.subrange(0, i as int), skip@),
            decreases entries@.len() - i,
        {
            assert(entries@.subrange(0, i + 1).drop_last() =~= entries@.subrange(0, i as int));
            let e = entries[i];
            if !skip.contains(&e.cid) && !e.cancel {
                self.add_entry(e);
            }
            i += 1;
        }
        assert(entries@.subrange(0, entries@.len() as int) =~= entries@);
    }

    /// Removes the entries of `cids`.
    pub fn remove_all(&mut self, cids: &Vec<Cid>)
        requires
            old(self).wf(),
        ensures
            final(self)@ == removed_all(old(self)@, cids@),
            final(self).wf(),
    {
        let mut i: usize = 0;
        while i < cids.len()
            invariant
                i <= cids@.len(),
                self.wf(),
                self@ == removed_all(old(self)@, cids@.subrange(0, i as int)),
            decreases cids@.len() - i,
        {
            assert(cids@.subrange(0, i + 1).drop_last() =~= cids@.subrange(0, i as int));
            self.remove(&cids[i]);
            i += 1;
        }
        assert(cids@.subrange(0, cids@.len() as int) =~= cids@);
    }

    /// Removes the first `n` entries.
    pub fn drop_front(&mut self, n: usize)
        requires
            old(self).wf(),
            n <= old(self)@.len(),
        ensures
            final(self)@ == old(self)@.subrange(n as int, old(self)@.len() as int),
            final(self).wf(),
    {
        proof {
            lemma_subrange_wf(self@, n as int, self@.len() as int);
        }
        let mut out: Vec<Entry> = Vec::new();
        let mut i: usize = n;
        while i < self.entries.len()
            invariant
                n <= i <= self.entries@.len(),
                out@ == self.entries@.subrange(n as int, i as int),
            decreases self.entries@.len() - i,
        {
            out.push(self.entries[i]);
            assert(self.entries@.subrange(n as int, i + 1) == self.entries@.subrange(
                n as int,
                i as int,
            ).push(self.entries@[i as int]));
            i += 1;
        }
        self.entries = out;
    }

    /// The entry at position `i`.
    pub fn entry(&self, i: usize) -> (e: Entry)
        requires
            i < self@.len(),
        ensures
            e == self@[i as int],
    {
        self.entries[i]
    }

    /// The entries, highest priority first; among equal priorities the one
    /// added first comes first.
    pub fn entries(&self) -> (v: Vec<Entry>)
        ensures
            v@ == self@,
    {
        let mut v: Vec<Entry> = Vec::new();
        let mut i: usize = 0;
        while i < self.entries.len()
            invariant
                i <= self.entries@.len(),
                v@ == self.entries@.subrange(0, i as int),
            decreases self.entries@.len() - i,
        {
            v.push(self.entries[i]);
            assert(self.entries@.subrange(0, i + 1) == self.entries@.subrange(0, i as int).push(
                self.entries@[i as int],
            ));
            i += 1;
        }
        assert(self.entries@.subrange(0, self.entries@.len() as int) == self.entries@);
        v
    }
}

} // verus!
