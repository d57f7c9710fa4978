//! The peers that one session may ask, fastest first.

use crate::ident::{Key, PeerId};
use vstd::prelude::*;

verus! {

/// What a session knows of one candidate peer.
#[derive(Clone, Copy, PartialEq, Eq, Structural, Debug)]
pub struct SessionPeer {
    pub peer: PeerId,
    /// Whether the peer has answered this session at all.
    pub useful: bool,
    /// When the first answer came, in milliseconds; zero before any answer.
    pub first_responded_at: u64,
    /// The smoothed round-trip time in milliseconds; zero before any answer.
    pub rtt_ewma: u64,
}

/// The smoothed round-trip time after a new sample: three parts of the old
/// value and one part of the sample.
pub open spec fn ewma(prev: u64, sample: u64) -> u64 {
    ((3 * prev + sample) / 4) as u64
}

/// The number by which peers are ranked: the smoothed round-trip time, kept
/// below the largest number, which stands for a peer that has not answered
/// yet.
pub open spec fn rank(p: SessionPeer) -> u64 {
    if !p.useful {
        u64::MAX
    } else if p.rtt_ewma == u64::MAX {
        (u64::MAX - 1) as u64
    } else {
        p.rtt_ewma
    }
}

/// The peers of the entries, in order.
pub open spec fn peers_of(s: Seq<SessionPeer>) -> Seq<PeerId> {
    s.map_values(|e: SessionPeer| e.peer)
}

/// No later entry has a lower rank than an earlier one.
pub open spec fn by_rank(s: Seq<SessionPeer>) -> bool {
    forall|i: int, j: int| 0 <= i < j < s.len() ==> rank(s[i]) <= rank(s[j])
}

/// How many entries at the head of `s` have rank `r` or less: the place at
/// which a new entry of rank `r` belongs.
pub open spec fn place(s: Seq<SessionPeer>, r: u64) -> int
    decreases s.len(),
{
    if s.len() == 0 || rank(s[0]) > r {
        0
    } else {
        1 + place(s.drop_first(), r)
    }
}

/// The entry of `peer`, if there is one.
pub open spec fn peer_entry(s: Seq<SessionPeer>, peer: PeerId) -> Option<SessionPeer> {
    if peers_of(s).contains(peer) {
        Some(s[peers_of(s).index_of(peer)])
    } else {
        None
    }
}

/// The list without the entry of `peer`.
pub open spec fn without_peer(s: Seq<SessionPeer>, peer: PeerId) -> Seq<SessionPeer> {
    if peers_of(s).contains(peer) {
        s.remove(peers_of(s).index_of(peer))
    } else {
        s
    }
}

/// The list with `e` put where its rank says, behind the entries of the same
/// rank, in place of any entry that its peer had.
pub open spec fn with_peer(s: Seq<SessionPeer>, e: SessionPeer) -> Seq<SessionPeer> {
    let rest = without_peer(s, e.peer);
    rest.insert(place(rest, rank(e)), e)
}

/// The entry of a peer after an answer that took `latency` milliseconds came
/// at time `now`.
pub open spec fn answered(e: SessionPeer, now: u64, latency: u64) -> SessionPeer {
    if e.useful {
        SessionPeer { rtt_ewma: ewma(e.rtt_ewma, latency), ..e }
    } else {
        SessionPeer { peer: e.peer, useful: true, first_responded_at: now, rtt_ewma: latency }
    }
}

/// The entry of a peer that was just added.
pub open spec fn fresh(peer: PeerId) -> SessionPeer {
    SessionPeer { peer, useful: false, first_responded_at: 0, rtt_ewma: 0 }
}

/// A list is well formed when no peer occurs twice and the entries stand by
/// rising rank.
pub open spec fn well_formed(s: Seq<SessionPeer>) -> bool {
    peers_of(s).no_duplicates() && by_rank(s)
}

/// The place lies within the list, everything before it has at most the
/// rank, and in a list ordered by rank everything from it on has more.
pub proof fn lemma_place(s: Seq<SessionPeer>, r: u64)
    ensures
        0 <= place(s, r) <= s.len(),
        forall|j: int| 0 <= j < place(s, r) ==> rank(#[trigger] s[j]) <= r,
        place(s, r) < s.len() ==> rank(s[place(s, r)]) > r,
        by_rank(s) ==> forall|j: int| place(s, r) <= j < s.len() ==> rank(#[trigger] s[j]) > r,
        r == u64::MAX ==> place(s, r) == s.len(),
    decreases s.len(),
{
    if s.len() == 0 || rank(s[0]) > r {
    } else {
        let t = s.drop_first();
        lemma_place(t, r);
        assert forall|j: int| 0 <= j < place(s, r) implies rank(#[trigger] s[j]) <= r by {
            if j > 0 {
                assert(t[j - 1] == s[j]);
            }
        }
        if place(s, r) < s.len() {
            assert(t[place(t, r)] == s[place(s, r)]);
        }
    }
}

/// Removing a peer keeps a list well formed, and only that peer goes.
pub proof fn lemma_without_peer(s: Seq<SessionPeer>, peer: PeerId, x: PeerId)
    requires
        well_formed(s),
    ensures
        well_formed(without_peer(s, peer)),
        peer_entry(without_peer(s, peer), x) == if x == peer {
            None
        } else {
            peer_entry(s, x)
        },
{
    let ks = peers_of(s);
    let t = without_peer(s, peer);
    let kt = peers_of(t);
    if ks.contains(peer) {
        let p = ks.index_of(peer);
        assert(0 <= p < ks.len() && ks[p] == peer);
        assert(kt =~= ks.remove(p));
        assert forall|i: int, j: int| 0 <= i < kt.len() && 0 <= j < kt.len() && i != j implies kt[i]
            != kt[j] by {
            let ii = if i < p { i } else { i + 1 };
            let jj = if j < p { j } else { j + 1 };
            assert(ks[ii] != ks[jj]);
        }
        assert forall|i: int, j: int| 0 <= i < j < t.len() implies rank(t[i]) <= rank(t[j]) by {
            let ii = if i < p { i } else { i + 1 };
            let jj = if j < p { j } else { j + 1 };
            assert(rank(s[ii]) <= rank(s[jj]));
        }
        if kt.contains(x) {
            let q = kt.index_of(x);
            assert(0 <= q < kt.len() && kt[q] == x);
            let qq = if q < p { q } else { q + 1 };
            assert(ks[qq] == x);
            let r = ks.index_of(x);
            assert(0 <= r < ks.len() && ks[r] == x);
        }
        if ks.contains(x) && x != peer {
            let q = ks.index_of(x);
            assert(0 <= q < ks.len() && ks[q] == x);
            if q < p {
                assert(kt[q] == x);
            } else {
                assert(kt[q - 1] == x);
            }
        }
    }
}

/// Putting an entry keeps a list well formed; afterwards its peer has that
/// entry and every other peer keeps its own.
pub proof fn lemma_with_peer(s: Seq<SessionPeer>, e: SessionPeer, x: PeerId)
    requires
        well_formed(s),
    ensures
        well_formed(with_peer(s, e)),
        peer_entry(with_peer(s, e), x) == if x == e.peer {
            Some(e)
        } else {
            peer_entry(s, x)
        },
        peers_of(with_peer(s, e)).contains(x) <==> (x == e.peer || peers_of(s).contains(x)),
{
    let rest = without_peer(s, e.peer);
    lemma_without_peer(s, e.peer, x);
    lemma_without_peer(s, e.peer, e.peer);
    lemma_place(rest, rank(e));
    let p = place(rest, rank(e));
    let t = rest.insert(p, e);
    let kr = peers_of(rest);
    let kt = peers_of(t);
    assert(kt =~= kr.insert(p, e.peer));
    assert forall|i: int, j: int| 0 <= i < kt.len() && 0 <= j < kt.len() && i != j implies kt[i]
        != kt[j] by {
        let ii = if i < p { i } else { i - 1 };
        let jj = if j < p { j } else { j - 1 };
        if i == p {
            assert(kr.contains(kr[jj]));
        } else if j == p {
            assert(kr.contains(kr[ii]));
        } else {
            assert(kr[ii] != kr[jj]);
        }
    }
    assert forall|i: int, j: int| 0 <= i < j < t.len() implies rank(t[i]) <= rank(t[j]) by {
        let ii = if i < p { i } else { i - 1 };
        let jj = if j < p { j } else { j - 1 };
        if i == p {
            assert(rank(rest[jj]) > rank(e));
        } else if j == p {
            assert(rank(rest[ii]) <= rank(e));
        } else {
            assert(rank(rest[ii]) <= rank(rest[jj]));
        }
    }
    assert(kt[p] == e.peer);
    let pe = kt.index_of(e.peer);
    assert(0 <= pe < kt.len() && kt[pe] == e.peer);
    if x != e.peer {
        if kr.contains(x) {
            let q = kr.index_of(x);
            assert(0 <= q < kr.len() && kr[q] == x);
            let qq = if q < p { q } else { q + 1 };
            assert(kt[qq] == x);
            let r = kt.index_of(x);
            assert(0 <= r < kt.len() && kt[r] == x);
        }
        if kt.contains(x) {
            let q = kt.index_of(x);
            assert(0 <= q < kt.len() && kt[q] == x);
            let qq = if q < p { q } else { q - 1 };
            assert(kr[qq] == x);
            let r = kr.index_of(x);
            assert(0 <= r < kr.len() && kr[r] == x);
        }
    }
}

/// The smoothed round-trip time after a new sample.
pub fn ewma_update(prev: u64, sample: u64) -> (r: u64)
    ensures
        r == ewma(prev, sample),
{
    let sum: u128 = 3 * (prev as u128) + sample as u128;
    (sum / 4) as u64
}

/// The candidate peers of one session.
pub struct SessionPeerManager {
    entries: Vec<SessionPeer>,
    discovered: bool,
}

impl View for SessionPeerManager {
    type V = Seq<SessionPeer>;

    closed spec fn view(&self) -> Seq<SessionPeer> {
        self.entries@
    }
}

impl SessionPeerManager {
    /// No peer occurs twice, and the entries stand by rising rank.
    pub open spec fn wf(&self) -> bool {
        well_formed(self@)
    }

    /// Whether any peer was ever added.
    pub closed spec fn discovered(&self) -> bool {
        self.discovered
    }

    pub fn new() -> (m: Self)
        ensures
            m@ == Seq::<SessionPeer>::empty(),
            !m.discovered(),
            m.wf(),
    {
        let m = SessionPeerManager { entries: Vec::new(), discovered: false };
        assert(peers_of(m@) =~= Seq::<PeerId>::empty());
        m
    }

    pub fn len(&self) -> (n: usize)
        ensures
            n == self@.len(),
    {
        self.entries.len()
    }

    fn position(&self, peer: &PeerId) -> (r: Option<usize>)
        requires
            self.wf(),
        ensures
            r is Some <==> peers_of(self@).contains(*peer),
            r matches Some(i) ==> i < self@.len() && self@[i as int].peer == *peer && i == peers_of(
                self@,
            ).index_of(*peer),
    {
        let ghost ks = peers_of(self@);
        let mut i: usize = 0;
        while i < self.entries.len()
            invariant
                self.wf(),
                ks == peers_of(self@),
                i <= self.entries@.len(),
                forall|j: int| 0 <= j < i ==> ks[j] != *peer,
            decreases self.entries@.len() - i,
        {
            if self.entries[i].peer.same(peer) {
                proof {
                    assert(ks[i as int] == *peer);
                    let p = ks.index_of(*peer);
                    assert(0 <= p < ks.len() && ks[p] == *peer);
                }
                return Some(i);
            }
            i += 1;
        }
        None
    }

    fn place_for(&self, r: u64) -> (at: usize)
        ensures
            at == place(self@, r),
            at <= self@.len(),
    {
        let ghost s = self@;
        let mut i: usize = 0;
        proof {
            assert(s.subrange(0, s.len() as int) =~= s);
            lemma_place(s, r);
        }
        while i < self.entries.len() && Self::rank_of(&self.entries[i]) <= r
            invariant
                s == self@,
                i <= s.len(),
                place(s, r) == i + place(s.subrange(i as int, s.len() as int), r),
            decreases s.len() - i,
        {
            proof {
                let t = s.subrange(i as int, s.len() as int);
                assert(t[0] == s[i as int]);
                assert(t.drop_first() =~= s.subrange(i + 1, s.len() as int));
            }
            i += 1;
        }
        proof {
            let t = s.subrange(i as int, s.len() as int);
            if i < s.len() {
                assert(t[0] == s[i as int]);
            }
        }
        i
    }

    fn rank_of(e: &SessionPeer) -> (r: u64)
        ensures
            r == rank(*e),
    {
        if !e.useful {
            u64::MAX
        } else if e.rtt_ewma == u64::MAX {
            u64::MAX - 1
        } else {
            e.rtt_ewma
        }
    }

    /// Adds `peer` as a candidate that has not answered yet. Returns whether
    /// the peer was new.
    pub fn add_peer(&mut self, peer: PeerId) -> (is_new: bool)
        requires
            old(self).wf(),
        ensures
            is_new == !peers_of(old(self)@).contains(peer),
            final(self)@ == if is_new {
                old(self)@.push(fresh(peer))
            } else {
                old(self)@
            },
            final(self).discovered(),
            final(self).wf(),
    {
        self.discovered = true;
        if self.position(&peer).is_some() {
            return false;
        }
        proof {
            let s = self@;
            lemma_with_peer(s, fresh(peer), peer);
            lemma_place(s, u64::MAX);
            assert(with_peer(s, fresh(peer)) =~= s.push(fresh(peer)));
        }
        self.entries.push(
            SessionPeer { peer, useful: false, first_responded_at: 0, rtt_ewma: 0 },
        );
        true
    }

    /// Removes `peer`. Returns whether it was a candidate.
    pub fn remove_peer(&mut self, peer: &PeerId) -> (was_there: bool)
        requires
            old(self).wf(),
        ensures
            was_there == peers_of(old(self)@).contains(*peer),
            final(self)@ == without_peer(old(self)@, *peer),
            final(self).discovered() == old(self).discovered(),
            final(self).wf(),
    {
        proof {
            lemma_without_peer(self@, *peer, *peer);
        }
        match self.position(peer) {
            Some(i) => {
                self.entries.remove(i);
                true
            },
            None => false,
        }
    }

    /// Whether any peer was ever added, even if it has been removed since.
    pub fn peers_discovered(&self) -> (b: bool)
        ensures
            b == self.discovered(),
    {
        self.discovered
    }

    pub fn has_peer(&self, peer: &PeerId) -> (b: bool)
        requires
            self.wf(),
        ensures
            b == peers_of(self@).contains(*peer),
    {
        self.position(peer).is_some()
    }

    /// Whether some candidate has answered.
    pub fn has_useful_peer(&self) -> (b: bool)
        requires
            self.wf(),
        ensures
            b == (self@.len() > 0 && self@[0].useful),
            b == exists|i: int| 0 <= i < self@.len() && (#[trigger] self@[i]).useful,
    {
        if self.entries.len() == 0 {
            return false;
        }
        let b = self.entries[0].useful;
        proof {
            if !b {
                assert forall|i: int| 0 <= i < self@.len() implies !(#[trigger] self@[i]).useful by {
                    if i > 0 {
                        assert(rank(self@[0]) <= rank(self@[i]));
                    }
                }
            }
        }
        b
    }

    /// What is known of `peer`.
    pub fn get(&self, peer: &PeerId) -> (r: Option<SessionPeer>)
        requires
            self.wf(),
        ensures
            r == peer_entry(self@, *peer),
    {
        match self.position(peer) {
            Some(i) => Some(self.entries[i]),
            None => None,
        }
    }

    /// Takes note that `peer` answered at time `now`, `latency` milliseconds
    /// after it was asked. Returns whether the peer is a candidate; nothing
    /// changes where it is not.
    pub fn record_response(&mut self, peer: &PeerId, now: u64, latency: u64) -> (known: bool)
        requires
            old(self).wf(),
        ensures
            known == peers_of(old(self)@).contains(*peer),
            final(self)@ == match peer_entry(old(self)@, *peer) {
                Some(e) => with_peer(old(self)@, answered(e, now, latency)),
                None => old(self)@,
            },
            final(self).discovered() == old(self).discovered(),
            final(self).wf(),
    {
        match self.position(peer) {
            Some(i) => {
                let e = self.entries[i];
                let next = if e.useful {
                    SessionPeer {
                        peer: e.peer,
                        useful: true,
                        first_responded_at: e.first_responded_at,
                        rtt_ewma: ewma_update(e.rtt_ewma, latency),
                    }
                } else {
                    SessionPeer { peer: e.peer, useful: true, first_responded_at: now, rtt_ewma: latency }
                };
                proof {
                    assert(next == answered(e, now, latency));
                    lemma_with_peer(self@, next, *peer);
                    lemma_without_peer(self@, *peer, *peer);
                }
                self.entries.remove(i);
                let at = self.place_for(Self::rank_of(&next));
                self.entries.insert(at, next);
                true
            },
            None => false,
        }
    }

    /// The candidates, fastest first; those that have not answered come
    /// last, and among equals the one that got its rank first comes first.
    pub fn peers(&self) -> (v: Vec<PeerId>)
        ensures
            v@ == peers_of(self@),
    {
        let mut v: Vec<PeerId> = Vec::new();
        let mut i: usize = 0;
        while i < self.entries.len()
            invariant
                i <= self.entries@.len(),
                v@ == peers_of(self.entries@.subrange(0, i as int)),
            decreases self.entries@.len() - i,
        {
            v.push(self.entries[i].peer);
            assert(peers_of(self.entries@.subrange(0, i + 1)) =~= peers_of(
                self.entries@.subrange(0, i as int),
            ).push(self.entries@[i as int].peer));
            i += 1;
        }
        assert(self.entries@.subrange(0, self.entries@.len() as int) == self.entries@);
        assert(peers_of(self.entries@.subrange(0, 0)) =~= Seq::<PeerId>::empty());
        v
    }
}

} // verus!
