//! Lookups of providers, a bounded number at a time.
//!
//! A session that has found no peer for a block asks for providers. The
//! manager starts a lookup unless one is under way for the same block, and
//! lets lookups beyond the bound wait in line. It does no lookup itself: it
//! says which to start and which to stop.

use crate::ident::{Cid, Key, PeerId};
use crate::keymap::{keys_of, lemma_with_entry, lemma_without_entry, lookup, with_entry, without_entry, KeyMap};
use crate::keyset::{insert_key, lemma_filter_ends, lemma_filter_next, lemma_insert_key, lemma_remove_key, remove_key, KeySet};
use vstd::prelude::*;

verus! {

/// How many lookups run at a time unless the caller says otherwise.
pub const DEFAULT_MAX_QUERIES: usize = 16;

/// How long a lookup may run, in milliseconds, unless the caller says
/// otherwise.
pub const DEFAULT_QUERY_TIMEOUT: u64 = 10000;

/// A session's wish to learn of providers of a block.
#[derive(Clone, Copy, PartialEq, Eq, Structural, Debug)]
pub struct Subscription {
    pub cid: Cid,
    pub session: u64,
}

impl Key for Subscription {
    fn same(&self, other: &Self) -> (r: bool) {
        *self == *other
    }
}

/// What the driver has to do after a subscriber left.
#[derive(Clone, Copy, PartialEq, Eq, Structural, Debug)]
pub struct QueryChange {
    /// Whether the lookup for the block has to be stopped.
    pub stop: bool,
    /// Whether a lookup that waited has to be started now.
    pub start: bool,
    /// The block of the lookup to start, where `start` is set.
    pub start_cid: Cid,
}

/// Whether some session waits for providers of `cid`.
pub open spec fn has_subscriber(subs: Seq<Subscription>, cid: Cid) -> bool {
    exists|i: int| 0 <= i < subs.len() && (#[trigger] subs[i]).cid == cid
}

/// The sessions that wait for providers of `cid`, in the order in which they
/// asked.
pub open spec fn subscribers(subs: Seq<Subscription>, cid: Cid) -> Seq<u64> {
    subs.filter(|s: Subscription| s.cid == cid).map_values(|s: Subscription| s.session)
}

/// The state of the manager.
pub ghost struct QueriesView {
    /// How many lookups may run at a time.
    pub max_active: usize,
    /// How long a lookup may run, in milliseconds.
    pub timeout: u64,
    /// The lookups that run, each with the time at which it started.
    pub active: Seq<(Cid, u64)>,
    /// The lookups that wait, first come first.
    pub queued: Seq<Cid>,
    /// Who waits for what.
    pub subs: Seq<Subscription>,
}

impl QueriesView {
    /// The state is in order: no more lookups run than may, none runs or
    /// waits twice, and none waits while another could run.
    pub open spec fn wf(self) -> bool {
        &&& self.active.len() <= self.max_active
        &&& keys_of(self.active).no_duplicates()
        &&& self.queued.no_duplicates()
        &&& self.subs.no_duplicates()
        &&& forall|c: Cid| !(keys_of(self.active).contains(c) && self.queued.contains(c))
        &&& self.queued.len() > 0 ==> self.active.len() == self.max_active
    }

    /// Whether a lookup for `cid` runs or waits.
    pub open spec fn is_known(self, cid: Cid) -> bool {
        keys_of(self.active).contains(cid) || self.queued.contains(cid)
    }

    /// Whether a new lookup for `cid` is started when a session asks for it:
    /// none is known for the block, and one more may run.
    pub open spec fn starts(self, cid: Cid) -> bool {
        !self.is_known(cid) && self.active.len() < self.max_active
    }

    /// The state after `session` asked at time `now` for providers of `cid`.
    pub open spec fn find_providers(self, cid: Cid, session: u64, now: u64) -> QueriesView {
        let subs = insert_key(self.subs, Subscription { cid, session });
        if self.is_known(cid) {
            QueriesView { subs, ..self }
        } else if self.active.len() < self.max_active {
            QueriesView { subs, active: self.active.push((cid, now)), ..self }
        } else {
            QueriesView { subs, queued: self.queued.push(cid), ..self }
        }
    }

    /// Whether a lookup that waits can start.
    pub open spec fn can_promote(self) -> bool {
        self.queued.len() > 0 && self.active.len() < self.max_active
    }

    /// The state after the lookup that has waited longest was started at
    /// time `now`, if one can start.
    pub open spec fn promote(self, now: u64) -> QueriesView {
        if self.can_promote() {
            QueriesView {
                active: self.active.push((self.queued[0], now)),
                queued: self.queued.drop_first(),
                ..self
            }
        } else {
            self
        }
    }

    /// The state in which the lookup for `cid` no longer runs and nobody
    /// waits for it, before a waiting lookup takes its place.
    pub open spec fn dropped(self, cid: Cid) -> QueriesView {
        QueriesView {
            active: without_entry(self.active, cid),
            subs: self.subs.filter(|s: Subscription| s.cid != cid),
            ..self
        }
    }

    /// The state after the lookup for `cid` ended at time `now`. Nothing
    /// changes where no lookup for `cid` runs.
    pub open spec fn query_finished(self, cid: Cid, now: u64) -> QueriesView {
        if keys_of(self.active).contains(cid) {
            self.dropped(cid).promote(now)
        } else {
            self
        }
    }

    /// The state in which `session` no longer waits for providers of `cid`,
    /// before the lookup is looked at.
    pub open spec fn left(self, cid: Cid, session: u64) -> QueriesView {
        QueriesView { subs: remove_key(self.subs, Subscription { cid, session }), ..self }
    }

    /// The state after `session` said at time `now` that it no longer waits
    /// for providers of `cid`. A lookup for which nobody waits is given up.
    pub open spec fn unsubscribe(self, cid: Cid, session: u64, now: u64) -> QueriesView {
        let l = self.left(cid, session);
        if has_subscriber(l.subs, cid) {
            l
        } else if keys_of(l.active).contains(cid) {
            (QueriesView { active: without_entry(l.active, cid), ..l }).promote(now)
        } else {
            QueriesView { queued: remove_key(l.queued, cid), ..l }
        }
    }

    /// The block of the lookup that starts in place of the lookup for
    /// `cid` when that ends, if one waits.
    pub open spec fn next_after(self, cid: Cid) -> Option<Cid> {
        if keys_of(self.active).contains(cid) && self.queued.len() > 0 {
            Some(self.queued[0])
        } else {
            None
        }
    }

    /// The state after the lookups for `late` ended in turn at time `now`.
    pub open spec fn finish_all(self, late: Seq<Cid>, now: u64) -> QueriesView
        decreases late.len(),
    {
        if late.len() == 0 {
            self
        } else {
            self.finish_all(late.drop_last(), now).query_finished(late.last(), now)
        }
    }

    /// What the driver has to do when the lookups for `late` end in turn:
    /// for each the lookup to stop, with the lookup to start in its place,
    /// if one waited.
    pub open spec fn finish_all_changes(self, late: Seq<Cid>, now: u64) -> Seq<(Cid, Option<Cid>)>
        decreases late.len(),
    {
        if late.len() == 0 {
            Seq::empty()
        } else {
            self.finish_all_changes(late.drop_last(), now).push(
                (late.last(), self.finish_all(late.drop_last(), now).next_after(late.last())),
            )
        }
    }

    /// The lookups that have run for the allowed time or longer at `now`.
    pub open spec fn overdue(self, now: u64) -> Seq<Cid> {
        keys_of(self.active.filter(|e: (Cid, u64)| now >= e.1 && now - e.1 >= self.timeout))
    }
}

/// The state of a manager without lookups, with the usual bounds.
pub open spec fn no_queries() -> QueriesView {
    QueriesView {
        max_active: DEFAULT_MAX_QUERIES,
        timeout: DEFAULT_QUERY_TIMEOUT,
        active: Seq::empty(),
        queued: Seq::empty(),
        subs: Seq::empty(),
    }
}

/// Lookups stay within the bound and are never doubled: whatever a session
/// asks for, the state stays in order, and a lookup is started only for a
/// block for which none runs or waits.
pub proof fn lemma_find_providers(v: QueriesView, cid: Cid, session: u64, now: u64)
    requires
        v.wf(),
    ensures
        v.find_providers(cid, session, now).wf(),
        v.starts(cid) ==> !v.is_known(cid),
        v.find_providers(cid, session, now).is_known(cid) || v.max_active == 0,
        forall|c: Cid| v.is_known(c) ==> v.find_providers(cid, session, now).is_known(c),
{
    let sub = Subscription { cid, session };
    lemma_insert_key(v.subs, sub, sub);
    let w = v.find_providers(cid, session, now);
    if v.is_known(cid) {
    } else if v.active.len() < v.max_active {
        lemma_with_entry(v.active, cid, now, cid);
        assert(with_entry(v.active, cid, now) == v.active.push((cid, now)));
        assert forall|c: Cid| !(keys_of(w.active).contains(c) && w.queued.contains(c)) by {
            lemma_with_entry(v.active, cid, now, c);
        }
        assert forall|c: Cid| v.is_known(c) implies w.is_known(c) by {
            lemma_with_entry(v.active, cid, now, c);
        }
    } else {
        lemma_insert_key(v.queued, cid, cid);
        assert(insert_key(v.queued, cid) == v.queued.push(cid));
        assert forall|c: Cid| !(keys_of(w.active).contains(c) && w.queued.contains(c)) by {
            lemma_insert_key(v.queued, cid, c);
        }
        assert forall|c: Cid| v.is_known(c) implies w.is_known(c) by {
            lemma_insert_key(v.queued, cid, c);
        }
        if v.max_active > 0 {
            assert(w.queued[v.queued.len() as int] == cid);
        }
    }
}

/// Starting a lookup that waited keeps the state in order.
pub proof fn lemma_promote(v: QueriesView, now: u64)
    requires
        v.active.len() <= v.max_active,
        keys_of(v.active).no_duplicates(),
        v.queued.no_duplicates(),
        v.subs.no_duplicates(),
        forall|c: Cid| !(keys_of(v.active).contains(c) && v.queued.contains(c)),
        v.queued.len() > 0 ==> v.active.len() + 1 >= v.max_active,
    ensures
        v.promote(now).wf(),
{
    if v.can_promote() {
        let c0 = v.queued[0];
        let w = v.promote(now);
        assert(v.queued.contains(c0));
        lemma_with_entry(v.active, c0, now, c0);
        assert(with_entry(v.active, c0, now) == v.active.push((c0, now)));
        assert forall|c: Cid| !(keys_of(w.active).contains(c) && w.queued.contains(c)) by {
            lemma_with_entry(v.active, c0, now, c);
            if w.queued.contains(c) {
                let i = choose|i: int| 0 <= i < w.queued.len() && w.queued[i] == c;
                assert(v.queued[i + 1] == c);
                assert(v.queued.contains(c));
                if c == c0 {
                    assert(v.queued[0] == v.queued[i + 1]);
                }
            }
        }
        assert forall|i: int, j: int|
            0 <= i < w.queued.len() && 0 <= j < w.queued.len() && i != j implies w.queued[i]
            != w.queued[j] by {
            assert(v.queued[i + 1] != v.queued[j + 1]);
        }
    }
}

/// The end of a lookup keeps the state in order.
pub proof fn lemma_query_finished(v: QueriesView, cid: Cid, now: u64)
    requires
        v.wf(),
    ensures
        v.query_finished(cid, now).wf(),
{
    if keys_of(v.active).contains(cid) {
        let d = v.dropped(cid);
        lemma_without_entry(v.active, cid, cid);
        crate::keyset::lemma_filter_no_duplicates(v.subs, |s: Subscription| s.cid != cid);
        let p = keys_of(v.active).index_of(cid);
        assert(0 <= p < v.active.len());
        assert forall|c: Cid| !(keys_of(d.active).contains(c) && d.queued.contains(c)) by {
            lemma_without_entry(v.active, cid, c);
            if keys_of(d.active).contains(c) {
                let i = choose|i: int| 0 <= i < d.active.len() && keys_of(d.active)[i] == c;
                let ii = if i < p { i } else { i + 1 };
                assert(keys_of(v.active)[ii] == c);
            }
        }
        lemma_promote(d, now);
    }
}

/// A subscriber's leaving keeps the state in order.
pub proof fn lemma_unsubscribe(v: QueriesView, cid: Cid, session: u64, now: u64)
    requires
        v.wf(),
    ensures
        v.unsubscribe(cid, session, now).wf(),
{
    let sub = Subscription { cid, session };
    lemma_remove_key(v.subs, sub, sub);
    let l = v.left(cid, session);
    if has_subscriber(l.subs, cid) {
    } else if keys_of(l.active).contains(cid) {
        let d = QueriesView { active: without_entry(l.active, cid), ..l };
        lemma_without_entry(l.active, cid, cid);
        let p = keys_of(v.active).index_of(cid);
        assert(0 <= p < v.active.len());
        assert forall|c: Cid| !(keys_of(d.active).contains(c) && d.queued.contains(c)) by {
            if keys_of(d.active).contains(c) {
                let i = choose|i: int| 0 <= i < d.active.len() && keys_of(d.active)[i] == c;
                let ii = if i < p { i } else { i + 1 };
                assert(keys_of(v.active)[ii] == c);
            }
        }
        lemma_promote(d, now);
    } else {
        lemma_remove_key(l.queued, cid, cid);
        let w = v.unsubscribe(cid, session, now);
        assert forall|c: Cid| !(keys_of(w.active).contains(c) && w.queued.contains(c)) by {
            lemma_remove_key(l.queued, cid, c);
        }
    }
}

/// The provider query manager.
pub struct ProviderQueryManager {
    max_active: usize,
    timeout: u64,
    active: KeyMap<Cid, u64>,
    queued: KeySet<Cid>,
    subs: KeySet<Subscription>,
}

impl View for ProviderQueryManager {
    type V = QueriesView;

    closed spec fn view(&self) -> QueriesView {
        QueriesView {
            max_active: self.max_active,
            timeout: self.timeout,
            active: self.active@,
            queued: self.queued@,
            subs: self.subs@,
        }
    }
}

impl ProviderQueryManager {
    /// The state is in order; see [`QueriesView::wf`].
    pub open spec fn wf(&self) -> bool {
        self@.wf()
    }

    /// A manager that lets [`DEFAULT_MAX_QUERIES`] lookups run at a time,
    /// each for [`DEFAULT_QUERY_TIMEOUT`] milliseconds.
    pub fn new() -> (m: Self)
        ensures
            m.wf(),
            m@ == (QueriesView {
                max_active: DEFAULT_MAX_QUERIES,
                timeout: DEFAULT_QUERY_TIMEOUT,
                active: Seq::empty(),
                queued: Seq::empty(),
                subs: Seq::empty(),
            }),
    {
        Self::with_limits(DEFAULT_MAX_QUERIES, DEFAULT_QUERY_TIMEOUT)
    }

    /// A manager that lets `max_active` lookups run at a time, each for
    /// `timeout` milliseconds.
    pub fn with_limits(max_active: usize, timeout: u64) -> (m: Self)
        ensures
            m.wf(),
            m@ == (QueriesView {
                max_active,
                timeout,
                active: Seq::empty(),
                queued: Seq::empty(),
                subs: Seq::empty(),
            }),
    {
        let m = ProviderQueryManager {
            max_active,
            timeout,
            active: KeyMap::new(),
            queued: KeySet::new(),
            subs: KeySet::new(),
        };
        assert(keys_of(Seq::<(Cid, u64)>::empty()) =~= Seq::<Cid>::empty());
        m
    }

    /// How many lookups run.
    pub fn active_len(&self) -> (n: usize)
        ensures
            n == self@.active.len(),
    {
        self.active.len()
    }

    /// How many lookups wait.
    pub fn queued_len(&self) -> (n: usize)
        ensures
            n == self@.queued.len(),
    {
        self.queued.len()
    }

    /// Takes note at time `now` that `session` wants providers of `cid`.
    /// Returns whether the driver has to start a lookup for `cid` now: it
    /// has when no lookup for the block runs or waits and one more may run.
    /// A session that asks while a lookup for the block is known shares it.
    pub fn find_providers(&mut self, cid: Cid, session: u64, now: u64) -> (start: bool)
        requires
            old(self).wf(),
        ensures
            start == old(self)@.starts(cid),
            final(self)@ == old(self)@.find_providers(cid, session, now),
            final(self).wf(),
    {
        proof {
            lemma_find_providers(self@, cid, session, now);
            lemma_with_entry(self@.active, cid, now, cid);
            lemma_insert_key(self@.queued, cid, cid);
        }
        self.subs.insert(Subscription { cid, session });
        if self.active.contains_key(&cid) || self.queued.contains(&cid) {
            false
        } else if self.active.len() < self.max_active {
            self.active.set(cid, now);
            true
        } else {
            self.queued.insert(cid);
            false
        }
    }

    /// The sessions to tell of a provider that the lookup for `cid` has
    /// found: those that wait for providers of `cid`, in the order in which
    /// they asked. The provider is handed on as it comes; one that was found
    /// before, for this block or another, is handed on again.
    pub fn provider_found(&self, cid: &Cid, provider: &PeerId) -> (sessions: Vec<u64>)
        requires
            self.wf(),
        ensures
            sessions@ == subscribers(self@.subs, *cid),
    {
        let ghost pred = |s: Subscription| s.cid == *cid;
        let ghost subs = self.subs@;
        let mut v: Vec<u64> = Vec::new();
        let mut i: usize = 0;
        proof {
            lemma_filter_ends(subs, pred);
            assert(Seq::<Subscription>::empty().map_values(|s: Subscription| s.session)
                =~= Seq::<u64>::empty());
        }
        while i < self.subs.len()
            invariant
                subs == self.subs@,
                i <= subs.len(),
                pred == (|s: Subscription| s.cid == *cid),
                v@ == subs.subrange(0, i as int).filter(pred).map_values(
                    |s: Subscription| s.session,
                ),
            decreases subs.len() - i,
        {
            proof {
                lemma_filter_next(subs, i as int, pred);
                let f = subs.subrange(0, i as int).filter(pred);
                assert(f.push(subs[i as int]).map_values(|s: Subscription| s.session)
                    =~= f.map_values(|s: Subscription| s.session).push(subs[i as int].session));
            }
            let s = self.subs.get(i);
            if s.cid.same(cid) {
                v.push(s.session);
            }
            i += 1;
        }
        v
    }

    fn has_subscriber(&self, cid: &Cid) -> (b: bool)
        ensures
            b == has_subscriber(self@.subs, *cid),
    {
        let mut i: usize = 0;
        while i < self.subs.len()
            invariant
                i <= self.subs@.len(),
                forall|j: int| 0 <= j < i ==> (#[trigger] self.subs@[j]).cid != *cid,
            decreases self.subs@.len() - i,
        {
            if self.subs.get(i).cid.same(cid) {
                return true;
            }
            i += 1;
        }
        false
    }

    /// Starts at time `now` the lookup that has waited longest, if one can
    /// start. Returns its block.
    fn promote(&mut self, now: u64) -> (started: Option<Cid>)
        requires
            old(self)@.promote(now).wf(),
            old(self).active.wf(),
            old(self).queued.wf(),
            forall|c: Cid| !(keys_of(old(self)@.active).contains(c) && old(self)@.queued.contains(c)),
        ensures
            final(self)@ == old(self)@.promote(now),
            started == if old(self)@.can_promote() {
                Some(old(self)@.queued[0])
            } else {
                None
            },
    {
        if self.queued.len() > 0 && self.active.len() < self.max_active {
            let cid = self.queued.get(0);
            proof {
                assert(self@.queued.contains(cid));
                lemma_with_entry(self@.active, cid, now, cid);
                assert(self@.queued.drop_first() =~= self@.queued.subrange(
                    1,
                    self@.queued.len() as int,
                ));
            }
            self.queued.drop_front(1);
            self.active.set(cid, now);
            Some(cid)
        } else {
            None
        }
    }

    /// Takes note at time `now` that the lookup for `cid` has ended: the
    /// source of providers is exhausted, or the lookup has run out of time.
    /// Nobody waits for providers of `cid` any more. Returns the block of the
    /// lookup that the driver has to start in its place, if one waited.
    pub fn query_finished(&mut self, cid: &Cid, now: u64) -> (start: Option<Cid>)
        requires
            old(self).wf(),
        ensures
            final(self)@ == old(self)@.query_finished(*cid, now),
            start == old(self)@.next_after(*cid),
            final(self).wf(),
    {
        proof {
            lemma_query_finished(self@, *cid, now);
            lemma_without_entry(self@.active, *cid, *cid);
        }
        if !self.active.contains_key(cid) {
            return None;
        }
        let ghost before = self@;
        self.active.remove(cid);
        let ghost pred = |s: Subscription| s.cid != *cid;
        let mut keep: Vec<Subscription> = Vec::new();
        let mut i: usize = 0;
        proof {
            lemma_filter_ends(before.subs, pred);
        }
        while i < self.subs.len()
            invariant
                self.subs@ == before.subs,
                i <= before.subs.len(),
                pred == (|s: Subscription| s.cid != *cid),
                keep@ == before.subs.subrange(0, i as int).filter(pred),
            decreases before.subs.len() - i,
        {
            proof {
                lemma_filter_next(before.subs, i as int, pred);
            }
            let s = self.subs.get(i);
            if !s.cid.same(cid) {
                keep.push(s);
            }
            i += 1;
        }
        proof {
            crate::keyset::lemma_filter_no_duplicates(before.subs, pred);
        }
        let mut subs: KeySet<Subscription> = KeySet::new();
        subs.extend(&keep);
        proof {
            lemma_extend_fresh(keep@);
        }
        self.subs = subs;
        proof {
            assert(self@ == before.dropped(*cid));
            let p = keys_of(before.active).index_of(*cid);
            assert(0 <= p < before.active.len());
            let d = self@;
            assert forall|c: Cid| !(keys_of(d.active).contains(c) && d.queued.contains(c)) by {
                if keys_of(d.active).contains(c) {
                    let i = choose|i: int| 0 <= i < d.active.len() && keys_of(d.active)[i] == c;
                    let ii = if i < p { i } else { i + 1 };
                    assert(keys_of(before.active)[ii] == c);
                }
            }
        }
        self.promote(now)
    }

    /// Takes note at time `now` that `session` no longer waits for providers
    /// of `cid`. Where it was the last to wait, the lookup is given up: the
    /// result says whether the driver has to stop a running lookup, and
    /// which waiting lookup it has to start in its place.
    pub fn unsubscribe(&mut self, cid: &Cid, session: u64, now: u64) -> (change: QueryChange)
        requires
            old(self).wf(),
        ensures
            final(self)@ == old(self)@.unsubscribe(*cid, session, now),
            change.stop == (!has_subscriber(old(self)@.left(*cid, session).subs, *cid) && keys_of(
                old(self)@.active,
            ).contains(*cid)),
            change.start == (change.stop && old(self)@.queued.len() > 0),
            change.start ==> change.start_cid == old(self)@.queued[0],
            final(self).wf(),
    {
        proof {
            lemma_unsubscribe(self@, *cid, session, now);
            lemma_without_entry(self@.active, *cid, *cid);
        }
        let ghost before = self@;
        self.subs.remove(&Subscription { cid: *cid, session });
        if self.has_subscriber(cid) {
            return QueryChange { stop: false, start: false, start_cid: *cid };
        }
        if self.active.contains_key(cid) {
            self.active.remove(cid);
            proof {
                let p = keys_of(before.active).index_of(*cid);
                assert(0 <= p < before.active.len());
                let d = self@;
                assert forall|c: Cid| !(keys_of(d.active).contains(c) && d.queued.contains(c)) by {
                    if keys_of(d.active).contains(c) {
                        let i = choose|i: int|
                            0 <= i < d.active.len() && keys_of(d.active)[i] == c;
                        let ii = if i < p { i } else { i + 1 };
                        assert(keys_of(before.active)[ii] == c);
                    }
                }
            }
            match self.promote(now) {
                Some(next) => QueryChange { stop: true, start: true, start_cid: next },
                None => QueryChange { stop: true, start: false, start_cid: *cid },
            }
        } else {
            self.queued.remove(cid);
            QueryChange { stop: false, start: false, start_cid: *cid }
        }
    }

    /// Ends at time `now` every lookup that has run for the allowed time,
    /// oldest first. Returns, for each, its block with the block of the
    /// lookup that the driver has to start in its place, if one waited.
    /// The driver stops the lookups that ended.
    pub fn expire(&mut self, now: u64) -> (changes: Vec<(Cid, Option<Cid>)>)
        requires
            old(self).wf(),
        ensures
            final(self)@ == old(self)@.finish_all(old(self)@.overdue(now), now),
            changes@ == old(self)@.finish_all_changes(old(self)@.overdue(now), now),
            final(self).wf(),
    {
        let ghost before = self@;
        let late = self.overdue(now);
        let mut changes: Vec<(Cid, Option<Cid>)> = Vec::new();
        let mut i: usize = 0;
        while i < late.len()
            invariant
                i <= late@.len(),
                self.wf(),
                self@ == before.finish_all(late@.subrange(0, i as int), now),
                changes@ == before.finish_all_changes(late@.subrange(0, i as int), now),
            decreases late@.len() - i,
        {
            assert(late@.subrange(0, i + 1).drop_last() =~= late@.subrange(0, i as int));
            let start = self.query_finished(&late[i], now);
            changes.push((late[i], start));
            i += 1;
        }
        assert(late@.subrange(0, late@.len() as int) =~= late@);
        changes
    }

    /// The lookups that have run for the allowed time at `now`, oldest
    /// first.
    pub fn overdue(&self, now: u64) -> (late: Vec<Cid>)
        requires
            self.wf(),
        ensures
            late@ == self@.overdue(now),
    {
        let ghost a = self.active@;
        let timeout = self.timeout;
        let ghost pred = |e: (Cid, u64)| now >= e.1 && now - e.1 >= timeout;
        let mut late: Vec<Cid> = Vec::new();
        let mut i: usize = 0;
        proof {
            lemma_filter_ends(a, pred);
            assert(keys_of(Seq::<(Cid, u64)>::empty()) =~= Seq::<Cid>::empty());
        }
        while i < self.active.len()
            invariant
                a == self.active@,
                i <= a.len(),
                pred == (|e: (Cid, u64)| now >= e.1 && now - e.1 >= timeout),
                late@ == keys_of(a.subrange(0, i as int).filter(pred)),
            decreases a.len() - i,
        {
            proof {
                lemma_filter_next(a, i as int, pred);
                let f = a.subrange(0, i as int).filter(pred);
                assert(keys_of(f.push(a[i as int])) =~= keys_of(f).push(a[i as int].0));
            }
            let e = self.active.entry(i);
            if now >= e.1 && now - e.1 >= timeout {
                late.push(e.0);
            }
            i += 1;
        }
        late
    }
}

/// Filling an empty set from a sequence without repetition gives that
/// sequence.
proof fn lemma_extend_fresh<K>(s: Seq<K>)
    requires
        s.no_duplicates(),
    ensures
        crate::keyset::union(Seq::<K>::empty(), s) == s,
    decreases s.len(),
{
    if s.len() > 0 {
        let d = s.drop_last();
        lemma_extend_fresh(d);
        crate::keyset::lemma_union(Seq::<K>::empty(), d, s.last());
        if d.contains(s.last()) {
            let i = choose|i: int| 0 <= i < d.len() && d[i] == s.last();
            assert(s[i] == s[s.len() - 1]);
        }
        assert(d.push(s.last()) =~= s);
    }
}

} // verus!
