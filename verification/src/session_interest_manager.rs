//! Which sessions want which blocks.

use crate::ident::{Block, Cid};
use crate::keymap::{keys_of, lemma_lookup_at, lemma_lookup_none, lemma_with_entry, lemma_without_entry, lookup, with_entry, without_entry};
use crate::keyset::{difference, lemma_filter_ends, lemma_filter_next, union, vec_contains, KeySet};
use vstd::prelude::*;

verus! {

/// The interests of all sessions: for each session that has any, its
/// identifier and the blocks it wants, in the order in which it asked.
pub type Interests = Seq<(u64, Seq<Cid>)>;

/// The blocks that `session` wants.
pub open spec fn interest_of(m: Interests, session: u64) -> Seq<Cid> {
    match lookup(m, session) {
        Some(cids) => cids,
        None => Seq::empty(),
    }
}

/// The interests are in order: no session occurs twice, and no session
/// wants a block twice.
pub open spec fn interests_wf(m: Interests) -> bool {
    &&& keys_of(m).no_duplicates()
    &&& forall|i: int| 0 <= i < m.len() ==> (#[trigger] m[i]).1.no_duplicates()
}

/// Whether `session` wants `cid`.
pub open spec fn is_interested(m: Interests, session: u64, cid: Cid) -> bool {
    interest_of(m, session).contains(cid)
}

/// Whether any session wants `cid`.
pub open spec fn is_wanted(m: Interests, cid: Cid) -> bool {
    exists|i: int| 0 <= i < m.len() && (#[trigger] m[i]).1.contains(cid)
}

/// The sessions that want `cid`, in the order in which the sessions arrived.
pub open spec fn sessions_for(m: Interests, cid: Cid) -> Seq<u64> {
    keys_of(m.filter(|e: (u64, Seq<Cid>)| e.1.contains(cid)))
}

/// The interests after `session` asked for `cids`.
pub open spec fn recorded(m: Interests, session: u64, cids: Seq<Cid>) -> Interests {
    with_entry(m, session, union(interest_of(m, session), cids))
}

/// The interests after `session` gave up `cids`.
pub open spec fn released(m: Interests, session: u64, cids: Seq<Cid>) -> Interests {
    if keys_of(m).contains(session) {
        with_entry(m, session, difference(interest_of(m, session), cids))
    } else {
        m
    }
}

/// Of the blocks that `session` wanted in `before`, those among `cids` that
/// no session wants in `after`.
pub open spec fn orphaned(before: Interests, after: Interests, session: u64, cids: Seq<Cid>) -> Seq<
    Cid,
> {
    interest_of(before, session).filter(|c: Cid| cids.contains(c) && !is_wanted(after, c))
}

/// Whether `wanted` and `unwanted` split the positions of `blocks`: the first
/// holds, in rising order, the positions of the blocks that some session
/// wants, the second those of the others.
pub open spec fn split_of(m: Interests, blocks: Seq<Block>, wanted: Seq<usize>, unwanted: Seq<usize>) -> bool {
    &&& forall|k: usize|
        wanted.contains(k) <==> k < blocks.len() && is_wanted(m, blocks[k as int].cid)
    &&& forall|k: usize|
        unwanted.contains(k) <==> k < blocks.len() && !is_wanted(m, blocks[k as int].cid)
    &&& forall|a: int, b: int| 0 <= a < b < wanted.len() ==> wanted[a] < wanted[b]
    &&& forall|a: int, b: int| 0 <= a < b < unwanted.len() ==> unwanted[a] < unwanted[b]
}

/// What a sequence holds after one more item.
proof fn lemma_pushed(s: Seq<usize>, x: usize)
    ensures
        forall|k: usize| s.push(x).contains(k) <==> (s.contains(k) || k == x),
{
    let t = s.push(x);
    assert(t[s.len() as int] == x);
    assert forall|k: usize| t.contains(k) <==> (s.contains(k) || k == x) by {
        if s.contains(k) {
            let i = choose|i: int| 0 <= i < s.len() && s[i] == k;
            assert(t[i] == k);
        }
        if t.contains(k) {
            let i = choose|i: int| 0 <= i < t.len() && t[i] == k;
            if i < s.len() {
                assert(s[i] == k);
            }
        }
    }
}

/// A block is given up for cancelling only when the last session that
/// wanted it has lost interest: what a session's release leaves without
/// interest is wanted by no session afterwards, and was wanted by that
/// session before.
pub proof fn lemma_orphaned(before: Interests, after: Interests, session: u64, cids: Seq<Cid>, c: Cid)
    ensures
        orphaned(before, after, session, cids).contains(c) <==> (is_interested(before, session, c)
            && cids.contains(c) && !is_wanted(after, c)),
{
    crate::keyset::lemma_filter_contains(
        interest_of(before, session),
        |x: Cid| cids.contains(x) && !is_wanted(after, x),
        c,
    );
}

/// Whether `session` is the only session that wants `cid`, and does want
/// it.
pub open spec fn sole_interest(m: Interests, session: u64, cid: Cid) -> bool {
    &&& is_interested(m, session, cid)
    &&& forall|i: int| 0 <= i < m.len() && (#[trigger] m[i]).1.contains(cid) ==> m[i].0 == session
}

/// A session's release of one block leaves the interest in every other
/// block as it was.
pub proof fn lemma_release_keeps_others(m: Interests, by: u64, released_cid: Cid, session: u64, cid: Cid)
    requires
        released_cid != cid,
    ensures
        sole_interest(released(m, by, seq![released_cid]), session, cid) == sole_interest(
            m,
            session,
            cid,
        ),
{
    let after = released(m, by, seq![released_cid]);
    let keys = keys_of(m);
    if keys.contains(by) {
        let i = keys.index_of(by);
        assert(0 <= i < keys.len() && keys[i] == by);
        let row = interest_of(m, by);
        let rest = difference(row, seq![released_cid]);
        assert(after == m.update(i, (by, rest)));
        assert(keys_of(after) =~= keys);
        crate::keyset::lemma_difference(row, seq![released_cid], cid);
        assert(!seq![released_cid].contains(cid)) by {
            if seq![released_cid].contains(cid) {
                let k = choose|k: int|
                    0 <= k < seq![released_cid].len() && seq![released_cid][k] == cid;
            }
        }
        assert(m[i].1 == row);
        if keys.contains(session) {
            let j = keys.index_of(session);
            assert(0 <= j < keys.len() && keys[j] == session);
        }
        if sole_interest(m, session, cid) {
            assert forall|k: int| 0 <= k < after.len() && (#[trigger] after[k]).1.contains(
                cid,
            ) implies after[k].0 == session by {
                if k != i {
                    assert(after[k] == m[k]);
                } else {
                    assert(m[i].1.contains(cid));
                }
            }
        }
        if sole_interest(after, session, cid) {
            assert forall|k: int| 0 <= k < m.len() && (#[trigger] m[k]).1.contains(
                cid,
            ) implies m[k].0 == session by {
                if k != i {
                    assert(after[k] == m[k]);
                } else {
                    assert(after[i].1.contains(cid));
                }
            }
        }
    }
}

/// A release changes no session's place in the index.
pub proof fn lemma_release_keeps_keys(m: Interests, by: u64, cids: Seq<Cid>)
    ensures
        keys_of(released(m, by, cids)) == keys_of(m),
{
    let keys = keys_of(m);
    if keys.contains(by) {
        let i = keys.index_of(by);
        assert(0 <= i < keys.len() && keys[i] == by);
        assert(keys_of(released(m, by, cids)) =~= keys);
    }
}

/// When the only session that wants a block releases it, the block is
/// left without interest: it is among what is given up for cancelling.
pub proof fn lemma_sole_release(m: Interests, session: u64, cid: Cid)
    requires
        keys_of(m).no_duplicates(),
        sole_interest(m, session, cid),
    ensures
        orphaned(m, released(m, session, seq![cid]), session, seq![cid]).contains(cid),
        !is_wanted(released(m, session, seq![cid]), cid),
{
    let after = released(m, session, seq![cid]);
    let keys = keys_of(m);
    let row = interest_of(m, session);
    assert(row.contains(cid));
    assert(keys.contains(session));
    let i = keys.index_of(session);
    assert(0 <= i < keys.len() && keys[i] == session);
    let rest = difference(row, seq![cid]);
    assert(after == m.update(i, (session, rest)));
    assert(seq![cid][0] == cid);
    crate::keyset::lemma_difference(row, seq![cid], cid);
    assert forall|k: int| 0 <= k < after.len() implies !(#[trigger] after[k]).1.contains(cid) by {
        if k != i {
            assert(after[k] == m[k]);
            if m[k].1.contains(cid) {
                assert(m[k].0 == session);
                assert(keys[k] == session);
            }
        }
    }
    if is_wanted(after, cid) {
        let k = choose|k: int| 0 <= k < after.len() && (#[trigger] after[k]).1.contains(cid);
    }
    lemma_orphaned(m, after, session, seq![cid], cid);
}

struct Row {
    session: u64,
    cids: KeySet<Cid>,
}

/// The index of who wants what.
pub struct SessionInterestManager {
    rows: Vec<Row>,
}

impl View for SessionInterestManager {
    type V = Interests;

    closed spec fn view(&self) -> Interests {
        Seq::new(self.rows@.len(), |i: int| (self.rows@[i].session, self.rows@[i].cids@))
    }
}

impl SessionInterestManager {
    /// The index is in order; see [`interests_wf`].
    pub open spec fn wf(&self) -> bool {
        interests_wf(self@)
    }

    spec fn rows_wf(&self) -> bool {
        forall|i: int| 0 <= i < self.rows@.len() ==> (#[trigger] self.rows@[i]).cids.wf()
    }

    proof fn lemma_rows_wf(&self)
        requires
            self.wf(),
        ensures
            self.rows_wf(),
            self@.len() == self.rows@.len(),
    {
        assert forall|i: int| 0 <= i < self.rows@.len() implies (#[trigger] self.rows@[i]).cids.wf() by {
            assert(self@[i].1 == self.rows@[i].cids@);
        }
    }

    pub fn new() -> (m: Self)
        ensures
            m@ == Seq::<(u64, Seq<Cid>)>::empty(),
            m.wf(),
    {
        let m = SessionInterestManager { rows: Vec::new() };
        assert(m@ =~= Seq::<(u64, Seq<Cid>)>::empty());
        assert(keys_of(m@) =~= Seq::<u64>::empty());
        m
    }

    fn position(&self, session: u64) -> (r: Option<usize>)
        requires
            self.wf(),
        ensures
            r is Some <==> keys_of(self@).contains(session),
            r matches Some(i) ==> i < self@.len() && self@[i as int].0 == session && i == keys_of(
                self@,
            ).index_of(session),
            r is None ==> lookup(self@, session) is None,
            r matches Some(i) ==> lookup(self@, session) == Some(self@[i as int].1),
    {
        let mut i: usize = 0;
        while i < self.rows.len()
            invariant
                self.wf(),
                i <= self.rows@.len(),
                self@.len() == self.rows@.len(),
                forall|j: int| 0 <= j < i ==> (#[trigger] self@[j]).0 != session,
            decreases self.rows@.len() - i,
        {
            if self.rows[i].session == session {
                proof {
                    assert(self@[i as int].0 == session);
                    lemma_lookup_at(self@, i as int);
                }
                return Some(i);
            }
            assert(self@[i as int].0 != session);
            i += 1;
        }
        proof {
            lemma_lookup_none(self@, session);
        }
        None
    }

    /// Records that `session` wants `cids`.
    pub fn record_session_interest(&mut self, session: u64, cids: &Vec<Cid>)
        requires
            old(self).wf(),
        ensures
            final(self)@ == recorded(old(self)@, session, cids@),
            final(self).wf(),
    {
        proof {
            self.lemma_rows_wf();
            lemma_with_entry(self@, session, union(interest_of(self@, session), cids@), session);
        }
        let ghost before = self@;
        match self.position(session) {
            Some(i) => {
                self.rows[i].cids.extend(cids);
                assert(self@ =~= recorded(before, session, cids@));
            },
            None => {
                let mut set: KeySet<Cid> = KeySet::new();
                set.extend(cids);
                self.rows.push(Row { session, cids: set });
                assert(self@ =~= recorded(before, session, cids@));
            },
        }
    }

    /// Whether any session wants `cid`.
    pub fn is_wanted(&self, cid: &Cid) -> (b: bool)
        requires
            self.wf(),
        ensures
            b == is_wanted(self@, *cid),
    {
        proof {
            self.lemma_rows_wf();
        }
        let mut i: usize = 0;
        while i < self.rows.len()
            invariant
                self.wf(),
                self.rows_wf(),
                i <= self.rows@.len(),
                self@.len() == self.rows@.len(),
                forall|j: int| 0 <= j < i ==> !(#[trigger] self@[j]).1.contains(*cid),
            decreases self.rows@.len() - i,
        {
            if self.rows[i].cids.contains(cid) {
                assert(self@[i as int].1.contains(*cid));
                return true;
            }
            assert(!self@[i as int].1.contains(*cid));
            i += 1;
        }
        false
    }

    /// Whether `session` wants `cid`.
    pub fn is_interested(&self, session: u64, cid: &Cid) -> (b: bool)
        requires
            self.wf(),
        ensures
            b == is_interested(self@, session, *cid),
    {
        proof {
            self.lemma_rows_wf();
        }
        match self.position(session) {
            Some(i) => {
                assert(self@[i as int].1 == self.rows@[i as int].cids@);
                self.rows[i].cids.contains(cid)
            },
            None => false,
        }
    }

    /// The blocks that `session` wants, in the order in which it asked.
    pub fn session_interest(&self, session: u64) -> (v: Vec<Cid>)
        requires
            self.wf(),
        ensures
            v@ == interest_of(self@, session),
    {
        match self.position(session) {
            Some(i) => {
                assert(self@[i as int].1 == self.rows@[i as int].cids@);
                self.rows[i].cids.to_vec()
            },
            None => Vec::new(),
        }
    }

    /// Of `mine`, in order, the blocks that occur in `cids` and that no
    /// session wants.
    fn orphans(&self, mine: &Vec<Cid>, cids: &Vec<Cid>) -> (v: Vec<Cid>)
        requires
            self.wf(),
        ensures
            v@ == mine@.filter(|c: Cid| cids@.contains(c) && !is_wanted(self@, c)),
    {
        let ghost pred = |c: Cid| cids@.contains(c) && !is_wanted(self@, c);
        let mut v: Vec<Cid> = Vec::new();
        let mut i: usize = 0;
        proof {
            lemma_filter_ends(mine@, pred);
        }
        while i < mine.len()
            invariant
                self.wf(),
                i <= mine@.len(),
                pred == (|c: Cid| cids@.contains(c) && !is_wanted(self@, c)),
                v@ == mine@.subrange(0, i as int).filter(pred),
            decreases mine@.len() - i,
        {
            proof {
                lemma_filter_next(mine@, i as int, pred);
            }
            let c = mine[i];
            if vec_contains(cids, &c) && !self.is_wanted(&c) {
                v.push(c);
            }
            i += 1;
        }
        v
    }

    /// Forgets that `session` wants `cids`. Returns the blocks among them
    /// that the session wanted and that no session wants any more, in the
    /// order in which the session had asked for them.
    pub fn remove_session_interest_for_cids(&mut self, session: u64, cids: &Vec<Cid>) -> (v: Vec<
        Cid,
    >)
        requires
            old(self).wf(),
        ensures
            final(self)@ == released(old(self)@, session, cids@),
            v@ == orphaned(old(self)@, final(self)@, session, cids@),
            final(self).wf(),
    {
        let ghost before = self@;
        proof {
            self.lemma_rows_wf();
        }
        match self.position(session) {
            Some(i) => {
                let mine = self.rows[i].cids.to_vec();
                assert(mine@ == interest_of(before, session));
                self.rows[i].cids.remove_all(cids);
                proof {
                    let d = difference(interest_of(before, session), cids@);
                    assert(self@ =~= with_entry(before, session, d));
                    lemma_with_entry(before, session, d, session);
                    let after = self@;
                    assert forall|j: int| 0 <= j < after.len() implies (#[trigger] after[j]).1.no_duplicates() by {
                        if j != i {
                            assert(after[j] == before[j]);
                        }
                    }
                }
                self.orphans(&mine, cids)
            },
            None => {
                let v: Vec<Cid> = Vec::new();
                proof {
                    let pred = |c: Cid| cids@.contains(c) && !is_wanted(before, c);
                    lemma_filter_ends(Seq::<Cid>::empty(), pred);
                    assert(Seq::<Cid>::empty().subrange(0, 0) =~= Seq::<Cid>::empty());
                }
                v
            },
        }
    }

    /// Forgets `session`. Returns the blocks that it wanted and that no
    /// session wants any more, in the order in which it had asked for them.
    pub fn remove_session_interest(&mut self, session: u64) -> (v: Vec<Cid>)
        requires
            old(self).wf(),
        ensures
            final(self)@ == without_entry(old(self)@, session),
            v@ == orphaned(old(self)@, final(self)@, session, interest_of(old(self)@, session)),
            final(self).wf(),
    {
        let ghost before = self@;
        proof {
            self.lemma_rows_wf();
            lemma_without_entry(before, session, session);
        }
        match self.position(session) {
            Some(i) => {
                let row = self.rows.remove(i);
                let mine = row.cids.to_vec();
                proof {
                    assert(mine@ == interest_of(before, session));
                    assert(self@ =~= without_entry(before, session));
                    let after = self@;
                    assert forall|j: int| 0 <= j < after.len() implies (#[trigger] after[j]).1.no_duplicates() by {
                        if j < i {
                            assert(after[j] == before[j]);
                        } else {
                            assert(after[j] == before[j + 1]);
                        }
                    }
                }
                self.orphans(&mine, &mine)
            },
            None => {
                let v: Vec<Cid> = Vec::new();
                proof {
                    let e = Seq::<Cid>::empty();
                    let pred = |c: Cid| e.contains(c) && !is_wanted(before, c);
                    lemma_filter_ends(e, pred);
                    assert(e.subrange(0, 0) =~= e);
                }
                v
            },
        }
    }

    /// The sessions that want `cid`.
    pub fn interested_sessions(&self, cid: &Cid) -> (v: Vec<u64>)
        requires
            self.wf(),
        ensures
            v@ == sessions_for(self@, *cid),
    {
        let ghost pred = |e: (u64, Seq<Cid>)| e.1.contains(*cid);
        let ghost m = self@;
        let mut v: Vec<u64> = Vec::new();
        let mut i: usize = 0;
        proof {
            self.lemma_rows_wf();
            lemma_filter_ends(m, pred);
            assert(keys_of(Seq::<(u64, Seq<Cid>)>::empty()) =~= Seq::<u64>::empty());
        }
        while i < self.rows.len()
            invariant
                self.wf(),
                self.rows_wf(),
                m == self@,
                m.len() == self.rows@.len(),
                i <= m.len(),
                pred == (|e: (u64, Seq<Cid>)| e.1.contains(*cid)),
                v@ == keys_of(m.subrange(0, i as int).filter(pred)),
            decreases m.len() - i,
        {
            proof {
                lemma_filter_next(m, i as int, pred);
                let f = m.subrange(0, i as int).filter(pred);
                assert(keys_of(f.push(m[i as int])) =~= keys_of(f).push(m[i as int].0));
                assert(m[i as int].1 == self.rows@[i as int].cids@);
            }
            if self.rows[i].cids.contains(cid) {
                v.push(self.rows[i].session);
            }
            i += 1;
        }
        v
    }

    /// Splits the positions of `blocks` into those of blocks that some
    /// session wants and those of blocks that no session wants, each in
    /// rising order.
    pub fn split_wanted_unwanted(&self, blocks: &Vec<Block>) -> (r: (Vec<usize>, Vec<usize>))
        requires
            self.wf(),
        ensures
            split_of(self@, blocks@, r.0@, r.1@),
    {
        let mut wanted: Vec<usize> = Vec::new();
        let mut unwanted: Vec<usize> = Vec::new();
        let mut i: usize = 0;
        while i < blocks.len()
            invariant
                self.wf(),
                i <= blocks@.len(),
                forall|k: usize|
                    wanted@.contains(k) <==> k < i && is_wanted(self@, blocks@[k as int].cid),
                forall|k: usize|
                    unwanted@.contains(k) <==> k < i && !is_wanted(self@, blocks@[k as int].cid),
                forall|a: int, b: int| 0 <= a < b < wanted@.len() ==> wanted@[a] < wanted@[b],
                forall|a: int, b: int| 0 <= a < b < unwanted@.len() ==> unwanted@[a] < unwanted@[b],
                forall|a: int| 0 <= a < wanted@.len() ==> wanted@[a] < i,
                forall|a: int| 0 <= a < unwanted@.len() ==> unwanted@[a] < i,
            decreases blocks@.len() - i,
        {
            let ghost w0 = wanted@;
            let ghost u0 = unwanted@;
            proof {
                lemma_pushed(w0, i);
                lemma_pushed(u0, i);
                if w0.contains(i) {
                    let a = choose|a: int| 0 <= a < w0.len() && w0[a] == i;
                }
                if u0.contains(i) {
                    let a = choose|a: int| 0 <= a < u0.len() && u0[a] == i;
                }
            }
            if self.is_wanted(&blocks[i].cid) {
                wanted.push(i);
                assert forall|k: usize| wanted@.contains(k) <==> k < i + 1 && is_wanted(
                    self@,
                    blocks@[k as int].cid,
                ) by {
                    assert(w0.push(i).contains(k) <==> (w0.contains(k) || k == i));
                }
                assert forall|k: usize| unwanted@.contains(k) <==> k < i + 1 && !is_wanted(
                    self@,
                    blocks@[k as int].cid,
                ) by {
                    assert(u0.contains(k) <==> k < i && !is_wanted(self@, blocks@[k as int].cid));
                }
            } else {
                unwanted.push(i);
                assert forall|k: usize| unwanted@.contains(k) <==> k < i + 1 && !is_wanted(
                    self@,
                    blocks@[k as int].cid,
                ) by {
                    assert(u0.push(i).contains(k) <==> (u0.contains(k) || k == i));
                }
                assert forall|k: usize| wanted@.contains(k) <==> k < i + 1 && is_wanted(
                    self@,
                    blocks@[k as int].cid,
                ) by {
                    assert(w0.contains(k) <==> k < i && is_wanted(self@, blocks@[k as int].cid));
                }
            }
            i += 1;
        }
        (wanted, unwanted)
    }

    /// Of `cids`, in order, those that `session` wants.
    pub fn filter_session_interested(&self, session: u64, cids: &Vec<Cid>) -> (v: Vec<Cid>)
        requires
            self.wf(),
        ensures
            v@ == cids@.filter(|c: Cid| is_interested(self@, session, c)),
    {
        let ghost pred = |c: Cid| is_interested(self@, session, c);
        let mut v: Vec<Cid> = Vec::new();
        let mut i: usize = 0;
        proof {
            lemma_filter_ends(cids@, pred);
        }
        while i < cids.len()
            invariant
                self.wf(),
                i <= cids@.len(),
                pred == (|c: Cid| is_interested(self@, session, c)),
                v@ == cids@.subrange(0, i as int).filter(pred),
            decreases cids@.len() - i,
        {
            proof {
                lemma_filter_next(cids@, i as int, pred);
            }
            let c = cids[i];
            if self.is_interested(session, &c) {
                v.push(c);
            }
            i += 1;
        }
        v
    }
}

} // verus!
