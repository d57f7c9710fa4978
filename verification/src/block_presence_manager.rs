//! What each peer has said about which blocks it has and which it lacks.

use crate::ident::{Cid, Key, PeerId};
use crate::keymap::{keys_of, lemma_lookup_at, lemma_lookup_none, lemma_with_entry, lemma_without_entry, lookup, with_entry, without_entry, KeyMap};
use crate::keyset::{lemma_filter_ends, lemma_filter_next};
use vstd::prelude::*;

verus! {

/// How many blocks are remembered for one peer unless the caller says
/// otherwise.
pub const DEFAULT_PRESENCE_CAPACITY: usize = 1024;

/// What one peer has said: for each block, whether it has it, in the order in
/// which the blocks were first spoken of.
pub type Sayings = Seq<(Cid, bool)>;

/// What all peers have said, in the order in which the peers first spoke.
pub type Presences = Seq<(PeerId, Sayings)>;

/// What `peer` has said.
pub open spec fn sayings_of(m: Presences, peer: PeerId) -> Sayings {
    match lookup(m, peer) {
        Some(t) => t,
        None => Seq::empty(),
    }
}

/// What `peer` has said about `cid`: `Some(true)` that it has the block,
/// `Some(false)` that it has not, `None` nothing that is remembered.
pub open spec fn presence(m: Presences, peer: PeerId, cid: Cid) -> Option<bool> {
    lookup(sayings_of(m, peer), cid)
}

/// One peer's sayings after it said `held` about `cid`, where at most
/// `capacity` blocks are remembered: a block spoken of before gets the new
/// answer in place; a new block is added, and where that would exceed the
/// capacity the oldest saying is forgotten for it.
pub open spec fn noted(t: Sayings, capacity: usize, cid: Cid, held: bool) -> Sayings {
    if keys_of(t).contains(cid) || t.len() < capacity {
        with_entry(t, cid, held)
    } else if capacity == 0 || t.len() == 0 {
        t
    } else {
        t.drop_first().push((cid, held))
    }
}

/// One peer's sayings after it said `held` about each of `cids` in turn.
pub open spec fn noted_all(t: Sayings, capacity: usize, cids: Seq<Cid>, held: bool) -> Sayings
    decreases cids.len(),
{
    if cids.len() == 0 {
        t
    } else {
        noted(noted_all(t, capacity, cids.drop_last(), held), capacity, cids.last(), held)
    }
}

/// What is known after `peer` said that it has `haves` and lacks
/// `dont_haves`. The haves are taken first, so a block named in both counts
/// as lacking: the last word wins.
pub open spec fn received(
    m: Presences,
    capacity: usize,
    peer: PeerId,
    haves: Seq<Cid>,
    dont_haves: Seq<Cid>,
) -> Presences {
    with_entry(
        m,
        peer,
        noted_all(noted_all(sayings_of(m, peer), capacity, haves, true), capacity, dont_haves, false),
    )
}

/// The peers known to have `cid`, in the order in which the peers first
/// spoke.
pub open spec fn peers_with(m: Presences, cid: Cid) -> Seq<PeerId> {
    keys_of(m.filter(|e: (PeerId, Sayings)| lookup(e.1, cid) == Some(true)))
}

/// One peer's sayings are in order: no block twice, and no more blocks than
/// the capacity.
pub open spec fn sayings_wf(t: Sayings, capacity: usize) -> bool {
    keys_of(t).no_duplicates() && t.len() <= capacity
}

/// What the peers have said is in order: no peer occurs twice, and each
/// peer's sayings are in order.
pub open spec fn presences_wf(m: Presences, capacity: usize) -> bool {
    &&& keys_of(m).no_duplicates()
    &&& forall|i: int| 0 <= i < m.len() ==> sayings_wf((#[trigger] m[i]).1, capacity)
}

/// Noting one saying keeps a peer's sayings in order, and the block spoken of
/// then has the answer given, unless nothing can be remembered at all.
pub proof fn lemma_noted(t: Sayings, capacity: usize, cid: Cid, held: bool)
    requires
        sayings_wf(t, capacity),
    ensures
        sayings_wf(noted(t, capacity, cid, held), capacity),
        capacity > 0 ==> lookup(noted(t, capacity, cid, held), cid) == Some(held),
{
    lemma_with_entry(t, cid, held, cid);
    let n = noted(t, capacity, cid, held);
    if keys_of(t).contains(cid) {
        let p = keys_of(t).index_of(cid);
        assert(0 <= p < t.len());
    } else if t.len() < capacity {
    } else if capacity == 0 || t.len() == 0 {
    } else {
        let d = t.drop_first();
        assert(d =~= without_entry(t, t[0].0)) by {
            lemma_lookup_at(t, 0);
            assert(t.remove(0) =~= d);
        }
        lemma_without_entry(t, t[0].0, cid);
        lemma_with_entry(d, cid, held, cid);
        assert(!keys_of(d).contains(cid)) by {
            if keys_of(d).contains(cid) {
                let i = choose|i: int| 0 <= i < keys_of(d).len() && keys_of(d)[i] == cid;
                assert(keys_of(t)[i + 1] == cid);
            }
        }
        assert(n == with_entry(d, cid, held));
    }
}

/// Noting several sayings keeps a peer's sayings in order.
pub proof fn lemma_noted_all(t: Sayings, capacity: usize, cids: Seq<Cid>, held: bool)
    requires
        sayings_wf(t, capacity),
    ensures
        sayings_wf(noted_all(t, capacity, cids, held), capacity),
    decreases cids.len(),
{
    if cids.len() > 0 {
        lemma_noted_all(t, capacity, cids.drop_last(), held);
        lemma_noted(noted_all(t, capacity, cids.drop_last(), held), capacity, cids.last(), held);
    }
}

struct Row {
    peer: PeerId,
    sayings: KeyMap<Cid, bool>,
}

/// The record of what peers have said about the blocks they hold.
pub struct BlockPresenceManager {
    rows: Vec<Row>,
    capacity: usize,
}

impl View for BlockPresenceManager {
    type V = Presences;

    closed spec fn view(&self) -> Presences {
        Seq::new(self.rows@.len(), |i: int| (self.rows@[i].peer, self.rows@[i].sayings@))
    }
}

impl BlockPresenceManager {
    /// How many blocks are remembered for one peer.
    pub closed spec fn capacity(&self) -> usize {
        self.capacity
    }

    /// The record is in order; see [`presences_wf`].
    pub open spec fn wf(&self) -> bool {
        presences_wf(self@, self.capacity())
    }

    spec fn rows_wf(&self) -> bool {
        &&& self@.len() == self.rows@.len()
        &&& forall|i: int| 0 <= i < self.rows@.len() ==> (#[trigger] self.rows@[i]).sayings.wf()
        &&& forall|i: int|
            0 <= i < self.rows@.len() ==> (#[trigger] self.rows@[i]).sayings@.len() <= self.capacity
    }

    proof fn lemma_rows_wf(&self)
        requires
            self.wf(),
        ensures
            self.rows_wf(),
    {
        assert forall|i: int| 0 <= i < self.rows@.len() implies (#[trigger] self.rows@[i]).sayings.wf()
            && self.rows@[i].sayings@.len() <= self.capacity by {
            assert(self@[i].1 == self.rows@[i].sayings@);
        }
    }

    /// An empty record that remembers [`DEFAULT_PRESENCE_CAPACITY`] blocks for
    /// each peer.
    pub fn new() -> (m: Self)
        ensures
            m@ == Seq::<(PeerId, Sayings)>::empty(),
            m.capacity() == DEFAULT_PRESENCE_CAPACITY,
            m.wf(),
    {
        Self::with_capacity(DEFAULT_PRESENCE_CAPACITY)
    }

    /// An empty record that remembers `capacity` blocks for each peer.
    pub fn with_capacity(capacity: usize) -> (m: Self)
        ensures
            m@ == Seq::<(PeerId, Sayings)>::empty(),
            m.capacity() == capacity,
            m.wf(),
    {
        let m = BlockPresenceManager { rows: Vec::new(), capacity };
        assert(m@ =~= Seq::<(PeerId, Sayings)>::empty());
        assert(keys_of(m@) =~= Seq::<PeerId>::empty());
        m
    }

    fn position(&self, peer: &PeerId) -> (r: Option<usize>)
        requires
            self.wf(),
        ensures
            r is Some <==> keys_of(self@).contains(*peer),
            r matches Some(i) ==> i < self@.len() && self@[i as int].0 == *peer && i == keys_of(
                self@,
            ).index_of(*peer),
            r is None ==> lookup(self@, *peer) is None,
            r matches Some(i) ==> lookup(self@, *peer) == Some(self@[i as int].1),
    {
        let mut i: usize = 0;
        while i < self.rows.len()
            invariant
                self.wf(),
                i <= self.rows@.len(),
                self@.len() == self.rows@.len(),
                forall|j: int| 0 <= j < i ==> (#[trigger] self@[j]).0 != *peer,
            decreases self.rows@.len() - i,
        {
            if self.rows[i].peer.same(peer) {
                proof {
                    assert(self@[i as int].0 == *peer);
                    lemma_lookup_at(self@, i as int);
                }
                return Some(i);
            }
            assert(self@[i as int].0 != *peer);
            i += 1;
        }
        proof {
            lemma_lookup_none(self@, *peer);
        }
        None
    }

    /// Notes in `t` that its peer said `held` about each of `cids`.
    fn note_all(t: &mut KeyMap<Cid, bool>, capacity: usize, cids: &Vec<Cid>, held: bool)
        requires
            old(t).wf(),
            old(t)@.len() <= capacity,
        ensures
            final(t)@ == noted_all(old(t)@, capacity, cids@, held),
            final(t).wf(),
            final(t)@.len() <= capacity,
    {
        let mut i: usize = 0;
        while i < cids.len()
            invariant
                i <= cids@.len(),
                t.wf(),
                t@.len() <= capacity,
                t@ == noted_all(old(t)@, capacity, cids@.subrange(0, i as int), held),
            decreases cids@.len() - i,
        {
            let cid = cids[i];
            proof {
                assert(cids@.subrange(0, i + 1).drop_last() =~= cids@.subrange(0, i as int));
                lemma_noted(t@, capacity, cid, held);
            }
            if t.contains_key(&cid) || t.len() < capacity {
                t.set(cid, held);
            } else if capacity > 0 && t.len() > 0 {
                let ghost before = t@;
                t.remove_at(0);
                assert(t@ =~= before.drop_first());
                proof {
                    assert forall|j: int| 0 <= j < t@.len() implies (#[trigger] t@[j]).0 != cid by {
                        assert(keys_of(before)[j + 1] == before[j + 1].0);
                    }
                    lemma_lookup_none(t@, cid);
                }
                t.set(cid, held);
            }
            i += 1;
        }
        assert(cids@.subrange(0, cids@.len() as int) =~= cids@);
    }

    /// Records that `peer` said it has `haves` and lacks `dont_haves`.
    pub fn receive_from(&mut self, peer: &PeerId, haves: &Vec<Cid>, dont_haves: &Vec<Cid>)
        requires
            old(self).wf(),
        ensures
            final(self)@ == received(old(self)@, old(self).capacity(), *peer, haves@, dont_haves@),
            final(self).capacity() == old(self).capacity(),
            final(self).wf(),
    {
        let ghost before = self@;
        let ghost cap = self.capacity;
        proof {
            self.lemma_rows_wf();
        }
        let i = match self.position(peer) {
            Some(i) => i,
            None => {
                self.rows.push(Row { peer: *peer, sayings: KeyMap::new() });
                assert(keys_of(Seq::<(Cid, bool)>::empty()) =~= Seq::<Cid>::empty());
                self.rows.len() - 1
            },
        };
        let capacity = self.capacity;
        Self::note_all(&mut self.rows[i].sayings, capacity, haves, true);
        Self::note_all(&mut self.rows[i].sayings, capacity, dont_haves, false);
        proof {
            let t = noted_all(
                noted_all(sayings_of(before, *peer), cap, haves@, true),
                cap,
                dont_haves@,
                false,
            );
            assert(self@ =~= with_entry(before, *peer, t));
            lemma_with_entry(before, *peer, t, *peer);
            let after = self@;
            assert forall|j: int| 0 <= j < after.len() implies sayings_wf(
                (#[trigger] after[j]).1,
                self.capacity(),
            ) by {
                if j != i {
                    assert(after[j] == before[j]);
                }
            }
        }
    }

    /// Whether `peer` is known to have `cid`.
    pub fn peer_has_block(&self, peer: &PeerId, cid: &Cid) -> (b: bool)
        requires
            self.wf(),
        ensures
            b == (presence(self@, *peer, *cid) == Some(true)),
    {
        proof {
            self.lemma_rows_wf();
        }
        match self.position(peer) {
            Some(i) => {
                assert(self@[i as int].1 == self.rows@[i as int].sayings@);
                match self.rows[i].sayings.get(cid) {
                    Some(held) => held,
                    None => false,
                }
            },
            None => {
                proof {
                    lemma_lookup_none(Seq::<(Cid, bool)>::empty(), *cid);
                }
                false
            },
        }
    }

    /// Whether `peer` is known to lack `cid`.
    pub fn peer_does_not_have_block(&self, peer: &PeerId, cid: &Cid) -> (b: bool)
        requires
            self.wf(),
        ensures
            b == (presence(self@, *peer, *cid) == Some(false)),
    {
        proof {
            self.lemma_rows_wf();
        }
        match self.position(peer) {
            Some(i) => {
                assert(self@[i as int].1 == self.rows@[i as int].sayings@);
                match self.rows[i].sayings.get(cid) {
                    Some(held) => !held,
                    None => false,
                }
            },
            None => {
                proof {
                    lemma_lookup_none(Seq::<(Cid, bool)>::empty(), *cid);
                }
                false
            },
        }
    }

    /// The peers known to have `cid`.
    pub fn all_peers_for_cid(&self, cid: &Cid) -> (v: Vec<PeerId>)
        requires
            self.wf(),
        ensures
            v@ == peers_with(self@, *cid),
    {
        let ghost pred = |e: (PeerId, Sayings)| lookup(e.1, *cid) == Some(true);
        let ghost m = self@;
        let mut v: Vec<PeerId> = Vec::new();
        let mut i: usize = 0;
        proof {
            self.lemma_rows_wf();
            lemma_filter_ends(m, pred);
            assert(keys_of(Seq::<(PeerId, Sayings)>::empty()) =~= Seq::<PeerId>::empty());
        }
        while i < self.rows.len()
            invariant
                self.wf(),
                self.rows_wf(),
                m == self@,
                i <= m.len(),
                pred == (|e: (PeerId, Sayings)| lookup(e.1, *cid) == Some(true)),
                v@ == keys_of(m.subrange(0, i as int).filter(pred)),
            decreases m.len() - i,
        {
            proof {
                lemma_filter_next(m, i as int, pred);
                let f = m.subrange(0, i as int).filter(pred);
                assert(keys_of(f.push(m[i as int])) =~= keys_of(f).push(m[i as int].0));
                assert(m[i as int].1 == self.rows@[i as int].sayings@);
            }
            let held = match self.rows[i].sayings.get(cid) {
                Some(held) => held,
                None => false,
            };
            if held {
                v.push(self.rows[i].peer);
            }
            i += 1;
        }
        v
    }

    /// Forgets everything that `peer` has said.
    pub fn remove_peer(&mut self, peer: &PeerId)
        requires
            old(self).wf(),
        ensures
            final(self)@ == without_entry(old(self)@, *peer),
            final(self).capacity() == old(self).capacity(),
            final(self).wf(),
    {
        let ghost before = self@;
        proof {
            self.lemma_rows_wf();
            lemma_without_entry(before, *peer, *peer);
        }
        match self.position(peer) {
            Some(i) => {
                self.rows.remove(i);
                proof {
                    assert(self@ =~= without_entry(before, *peer));
                    let after = self@;
                    assert forall|j: int| 0 <= j < after.len() implies sayings_wf(
                        (#[trigger] after[j]).1,
                        self.capacity(),
                    ) by {
                        if j < i {
                            assert(after[j] == before[j]);
                        } else {
                            assert(after[j] == before[j + 1]);
                        }
                    }
                }
            },
            None => {},
        }
    }
}

} // verus!
