//! What has been asked of whom.
//!
//! For each connected peer the manager keeps the blocks it was asked to send
//! and the blocks it was asked about. Every operation returns exactly what
//! has to be sent next, so that nothing is asked twice of the same peer and
//! nothing is cancelled that the peer was never told of.

use crate::ident::{Cid, Key, PeerId};
use crate::keymap::{keys_of, lemma_lookup_at, lemma_lookup_none, lookup, without_entry};
use crate::keyset::{difference, distinct, lemma_difference, lemma_distinct, lemma_filter_ends, lemma_filter_next, lemma_news, lemma_union, news, retain_not_in, union, KeySet};
use crate::wantlist::WantType;
use vstd::prelude::*;

verus! {

/// What one peer has been asked: the blocks it was asked to send and the
/// blocks of which it was asked whether it has them.
pub ghost struct Sent {
    pub blocks: Seq<Cid>,
    pub haves: Seq<Cid>,
}

/// The state of the manager: the connected peers with what each was asked,
/// and the blocks that are asked of every peer that connects.
pub ghost struct WantState {
    pub peers: Seq<(PeerId, Sent)>,
    pub broadcast: Seq<Cid>,
}

/// What `s` says that the peer was last asked about `cid`.
pub open spec fn told(s: Sent, cid: Cid) -> Option<WantType> {
    if s.blocks.contains(cid) {
        Some(WantType::Block)
    } else if s.haves.contains(cid) {
        Some(WantType::Have)
    } else {
        None
    }
}

/// What `peer` was last asked about `cid`; nothing where the peer is not
/// connected.
pub open spec fn told_peer(m: WantState, peer: PeerId, cid: Cid) -> Option<WantType> {
    match lookup(m.peers, peer) {
        Some(s) => told(s, cid),
        None => None,
    }
}

/// The record of a peer after it was asked to send `cids`.
pub open spec fn ask_blocks(s: Sent, cids: Seq<Cid>) -> Sent {
    Sent { blocks: union(s.blocks, cids), haves: difference(s.haves, cids) }
}

/// The blocks of `cids` that the peer has to be asked to send now: those it
/// was not asked to send before.
pub open spec fn blocks_to_ask(s: Sent, cids: Seq<Cid>) -> Seq<Cid> {
    news(s.blocks, cids)
}

/// The record of a peer after it was asked whether it has `cids`.
pub open spec fn ask_haves(s: Sent, cids: Seq<Cid>) -> Sent {
    Sent { blocks: s.blocks, haves: union(s.haves, difference(cids, s.blocks)) }
}

/// The blocks of `cids` that the peer has to be asked about now: those of
/// which it was told nothing before.
pub open spec fn haves_to_ask(s: Sent, cids: Seq<Cid>) -> Seq<Cid> {
    news(s.haves, difference(cids, s.blocks))
}

/// The record of a peer after the wants for `cids` were taken back.
pub open spec fn retract(s: Sent, cids: Seq<Cid>) -> Sent {
    Sent { blocks: difference(s.blocks, cids), haves: difference(s.haves, cids) }
}

/// The blocks of `cids` for which the peer has to be sent a cancel: those of
/// which it was told anything.
pub open spec fn cancels_to_send(s: Sent, cids: Seq<Cid>) -> Seq<Cid> {
    news(Seq::<Cid>::empty(), cids).filter(|c: Cid| told(s, c) is Some)
}

/// A record is in order when no block occurs twice in it.
pub open spec fn sent_wf(s: Sent) -> bool {
    &&& s.blocks.no_duplicates()
    &&& s.haves.no_duplicates()
    &&& forall|c: Cid| !(s.blocks.contains(c) && s.haves.contains(c))
}

/// The blocks that any peer was asked to send, each once.
pub open spec fn all_blocks(peers: Seq<(PeerId, Sent)>) -> Seq<Cid>
    decreases peers.len(),
{
    if peers.len() == 0 {
        Seq::empty()
    } else {
        union(all_blocks(peers.drop_last()), peers.last().1.blocks)
    }
}

/// The blocks of which any peer was asked whether it has them, each once.
pub open spec fn all_haves(peers: Seq<(PeerId, Sent)>) -> Seq<Cid>
    decreases peers.len(),
{
    if peers.len() == 0 {
        Seq::empty()
    } else {
        union(all_haves(peers.drop_last()), peers.last().1.haves)
    }
}

/// The messages that one operation hands out for one peer and one block.
pub ghost struct Emitted {
    pub want_have: bool,
    pub want_block: bool,
    pub cancel: bool,
}

/// What may be sent to a peer about a block when the record of what the peer
/// was told goes from `before` to `after`: a want-have only to a peer that
/// was told nothing, a want-block only to a peer that was not asked for the
/// block, a cancel only to a peer that was told something; and the record
/// afterwards says what was sent last.
pub open spec fn step_allowed(before: Option<WantType>, e: Emitted, after: Option<WantType>) -> bool {
    &&& e.want_have ==> before is None && !e.cancel
    &&& e.want_block ==> before != Some(WantType::Block) && after == Some(WantType::Block) && !e.cancel
    &&& e.want_have && !e.want_block ==> after == Some(WantType::Have)
    &&& e.cancel ==> before is Some && after is None
    &&& !e.want_have && !e.want_block && !e.cancel ==> after == before
}

/// Asking a peer to send blocks is an allowed step for every block.
pub proof fn lemma_ask_blocks(s: Sent, cids: Seq<Cid>, c: Cid)
    requires
        sent_wf(s),
    ensures
        sent_wf(ask_blocks(s, cids)),
        step_allowed(
            told(s, c),
            Emitted { want_have: false, want_block: blocks_to_ask(s, cids).contains(c), cancel: false },
            told(ask_blocks(s, cids), c),
        ),
{
    lemma_union(s.blocks, cids, c);
    lemma_news(s.blocks, cids, c);
    lemma_difference(s.haves, cids, c);
    let a = ask_blocks(s, cids);
    assert forall|x: Cid| !(a.blocks.contains(x) && a.haves.contains(x)) by {
        lemma_union(s.blocks, cids, x);
        lemma_difference(s.haves, cids, x);
    }
}

/// Asking a peer whether it has blocks is an allowed step for every block.
pub proof fn lemma_ask_haves(s: Sent, cids: Seq<Cid>, c: Cid)
    requires
        sent_wf(s),
    ensures
        sent_wf(ask_haves(s, cids)),
        step_allowed(
            told(s, c),
            Emitted { want_have: haves_to_ask(s, cids).contains(c), want_block: false, cancel: false },
            told(ask_haves(s, cids), c),
        ),
{
    let d = difference(cids, s.blocks);
    lemma_union(s.haves, d, c);
    lemma_news(s.haves, d, c);
    lemma_difference(cids, s.blocks, c);
    let a = ask_haves(s, cids);
    assert forall|x: Cid| !(a.blocks.contains(x) && a.haves.contains(x)) by {
        lemma_union(s.haves, d, x);
        lemma_difference(cids, s.blocks, x);
    }
}

/// Taking wants back is an allowed step for every block.
pub proof fn lemma_retract(s: Sent, cids: Seq<Cid>, c: Cid)
    requires
        sent_wf(s),
    ensures
        sent_wf(retract(s, cids)),
        step_allowed(
            told(s, c),
            Emitted { want_have: false, want_block: false, cancel: cancels_to_send(s, cids).contains(c) },
            told(retract(s, cids), c),
        ),
        cancels_to_send(s, cids).no_duplicates(),
{
    lemma_difference(s.blocks, cids, c);
    lemma_difference(s.haves, cids, c);
    lemma_news(Seq::<Cid>::empty(), cids, c);
    let pred = |x: Cid| told(s, x) is Some;
    crate::keyset::lemma_filter_contains(news(Seq::<Cid>::empty(), cids), pred, c);
    crate::keyset::lemma_filter_no_duplicates(news(Seq::<Cid>::empty(), cids), pred);
    let a = retract(s, cids);
    assert forall|x: Cid| !(a.blocks.contains(x) && a.haves.contains(x)) by {
        lemma_difference(s.blocks, cids, x);
        lemma_difference(s.haves, cids, x);
    }
}

/// Asking a peer to send some blocks and to say whether it has others is an
/// allowed step for every block: what goes out never repeats what the peer
/// was told, and a want-block is never followed by a want-have.
pub proof fn lemma_send_wants(s: Sent, want_blocks: Seq<Cid>, want_haves: Seq<Cid>, c: Cid)
    requires
        sent_wf(s),
    ensures
        sent_wf(ask_haves(ask_blocks(s, want_blocks), want_haves)),
        step_allowed(
            told(s, c),
            Emitted {
                want_have: haves_to_ask(ask_blocks(s, want_blocks), want_haves).contains(c),
                want_block: blocks_to_ask(s, want_blocks).contains(c),
                cancel: false,
            },
            told(ask_haves(ask_blocks(s, want_blocks), want_haves), c),
        ),
{
    lemma_ask_blocks(s, want_blocks, c);
    lemma_ask_haves(ask_blocks(s, want_blocks), want_haves, c);
    lemma_news(s.blocks, want_blocks, c);
    lemma_union(s.blocks, want_blocks, c);
    let t = ask_blocks(s, want_blocks);
    let d = difference(want_haves, t.blocks);
    lemma_news(t.haves, d, c);
    lemma_difference(want_haves, t.blocks, c);
    lemma_difference(s.haves, want_blocks, c);
}

/// When a peer is lost, the others cover for it: every peer that was asked
/// whether it has the blocks of which the lost peer had been told has been
/// told of each of them afterwards.
pub proof fn lemma_cover(s: Sent, lost: Seq<Cid>, c: Cid)
    requires
        lost.contains(c),
    ensures
        told(ask_haves(s, lost), c) is Some,
        told(s, c) is None ==> haves_to_ask(s, lost).contains(c),
{
    let d = difference(lost, s.blocks);
    lemma_difference(lost, s.blocks, c);
    lemma_union(s.haves, d, c);
    lemma_news(s.haves, d, c);
}

/// Whatever is asked of a peer or taken back from it, its record stays in
/// order.
pub proof fn lemma_records_stay_in_order(s: Sent, cids: Seq<Cid>)
    requires
        sent_wf(s),
    ensures
        sent_wf(ask_blocks(s, cids)),
        sent_wf(ask_haves(s, cids)),
        sent_wf(retract(s, cids)),
{
    lemma_distinct(s.blocks, cids);
    lemma_distinct(s.haves, cids);
    lemma_distinct(s.haves, difference(cids, s.blocks));
    let a = ask_blocks(s, cids);
    assert forall|x: Cid| !(a.blocks.contains(x) && a.haves.contains(x)) by {
        lemma_union(s.blocks, cids, x);
        lemma_difference(s.haves, cids, x);
    }
    let b = ask_haves(s, cids);
    assert forall|x: Cid| !(b.blocks.contains(x) && b.haves.contains(x)) by {
        lemma_union(s.haves, difference(cids, s.blocks), x);
        lemma_difference(cids, s.blocks, x);
    }
    let c = retract(s, cids);
    assert forall|x: Cid| !(c.blocks.contains(x) && c.haves.contains(x)) by {
        lemma_difference(s.blocks, cids, x);
        lemma_difference(s.haves, cids, x);
    }
}

/// What is asked or taken back about some blocks leaves what a peer was
/// told of every other block as it was.
pub proof fn lemma_untouched(s: Sent, cids: Seq<Cid>, c: Cid)
    requires
        !cids.contains(c),
    ensures
        told(ask_blocks(s, cids), c) == told(s, c),
        told(ask_haves(s, cids), c) == told(s, c),
        told(retract(s, cids), c) == told(s, c),
        !blocks_to_ask(s, cids).contains(c),
        !haves_to_ask(s, cids).contains(c),
{
    lemma_union(s.blocks, cids, c);
    lemma_difference(s.haves, cids, c);
    lemma_difference(s.blocks, cids, c);
    let d = difference(cids, s.blocks);
    lemma_difference(cids, s.blocks, c);
    lemma_union(s.haves, d, c);
    lemma_news(s.blocks, cids, c);
    lemma_news(s.haves, d, c);
}

/// Taking wants back never makes a peer told of anything.
pub proof fn lemma_retract_tells_nothing(s: Sent, cids: Seq<Cid>, c: Cid)
    ensures
        told(retract(s, cids), c) is Some ==> told(retract(s, cids), c) == told(s, c),
{
    lemma_difference(s.blocks, cids, c);
    lemma_difference(s.haves, cids, c);
}

/// Where every record is changed in a way that leaves what it says of one
/// block as it was, every peer counts as told of that block what it was
/// told before.
pub proof fn lemma_told_after_change(
    m: WantState,
    change: spec_fn(Sent) -> Sent,
    peer: PeerId,
    c: Cid,
)
    requires
        forall|s: Sent| told(#[trigger] change(s), c) == told(s, c),
    ensures
        told_peer(
            WantState {
                peers: m.peers.map_values(|e: (PeerId, Sent)| (e.0, change(e.1))),
                broadcast: m.broadcast,
            },
            peer,
            c,
        ) == told_peer(m, peer, c),
{
    let f = |e: (PeerId, Sent)| (e.0, change(e.1));
    let after = m.peers.map_values(f);
    assert(keys_of(after) =~= keys_of(m.peers));
    if keys_of(m.peers).contains(peer) {
        let i = keys_of(m.peers).index_of(peer);
        assert(0 <= i < m.peers.len());
        assert(after[i].1 == change(m.peers[i].1));
    }
}

/// Whether nothing new was asked of `peer` about `cid` between two states:
/// what the peer counts as told of the block afterwards, if anything, is
/// what it was told before.
pub open spec fn asked_nothing_new(before: WantState, after: WantState, peer: PeerId, cid: Cid) -> bool {
    told_peer(after, peer, cid) is Some ==> told_peer(after, peer, cid) == told_peer(
        before,
        peer,
        cid,
    )
}

/// The wants to send to one peer.
pub struct Batch {
    pub peer: PeerId,
    pub cids: Vec<Cid>,
}

struct Row {
    peer: PeerId,
    want_blocks: KeySet<Cid>,
    want_haves: KeySet<Cid>,
}

impl Row {
    spec fn sent(&self) -> Sent {
        Sent { blocks: self.want_blocks@, haves: self.want_haves@ }
    }

    spec fn wf(&self) -> bool {
        self.want_blocks.wf() && self.want_haves.wf() && sent_wf(self.sent())
    }

    fn ask_blocks(&mut self, cids: &Vec<Cid>) -> (out: Vec<Cid>)
        requires
            old(self).wf(),
        ensures
            final(self).wf(),
            final(self).peer == old(self).peer,
            final(self).sent() == ask_blocks(old(self).sent(), cids@),
            out@ == blocks_to_ask(old(self).sent(), cids@),
    {
        proof {
            lemma_records_stay_in_order(self.sent(), cids@);
        }
        let out = self.want_blocks.extend_new(cids);
        self.want_haves.remove_all(cids);
        out
    }

    fn ask_haves(&mut self, cids: &Vec<Cid>) -> (out: Vec<Cid>)
        requires
            old(self).wf(),
        ensures
            final(self).wf(),
            final(self).peer == old(self).peer,
            final(self).sent() == ask_haves(old(self).sent(), cids@),
            out@ == haves_to_ask(old(self).sent(), cids@),
    {
        proof {
            lemma_records_stay_in_order(self.sent(), cids@);
        }
        let open = retain_not_in(cids, &self.want_blocks);
        self.want_haves.extend_new(&open)
    }

    fn retract(&mut self, cids: &Vec<Cid>) -> (out: Vec<Cid>)
        requires
            old(self).wf(),
        ensures
            final(self).wf(),
            final(self).peer == old(self).peer,
            final(self).sent() == retract(old(self).sent(), cids@),
            out@ == cancels_to_send(old(self).sent(), cids@),
    {
        proof {
            lemma_records_stay_in_order(self.sent(), cids@);
        }
        let once = distinct(cids);
        let ghost s = self.sent();
        let ghost pred = |c: Cid| told(s, c) is Some;
        let mut out: Vec<Cid> = Vec::new();
        let mut i: usize = 0;
        proof {
            lemma_filter_ends(once@, pred);
        }
        while i < once.len()
            invariant
                self.wf(),
                s == self.sent(),
                i <= once@.len(),
                pred == (|c: Cid| told(s, c) is Some),
                out@ == once@.subrange(0, i as int).filter(pred),
            decreases once@.len() - i,
        {
            proof {
                lemma_filter_next(once@, i as int, pred);
            }
            let c = once[i];
            if self.want_blocks.contains(&c) || self.want_haves.contains(&c) {
                out.push(c);
            }
            i += 1;
        }
        self.want_blocks.remove_all(cids);
        self.want_haves.remove_all(cids);
        out
    }
}

/// The record of what has been asked of whom.
pub struct PeerWantManager {
    rows: Vec<Row>,
    broadcast_wants: KeySet<Cid>,
}

impl View for PeerWantManager {
    type V = WantState;

    closed spec fn view(&self) -> WantState {
        WantState {
            peers: Seq::new(self.rows@.len(), |i: int| (self.rows@[i].peer, self.rows@[i].sent())),
            broadcast: self.broadcast_wants@,
        }
    }
}

impl PeerWantManager {
    /// No peer occurs twice, and every record is in order.
    pub open spec fn wf(&self) -> bool {
        &&& keys_of(self@.peers).no_duplicates()
        &&& forall|i: int| 0 <= i < self@.peers.len() ==> sent_wf((#[trigger] self@.peers[i]).1)
        &&& self@.broadcast.no_duplicates()
    }

    spec fn rows_wf(&self) -> bool {
        &&& self@.peers.len() == self.rows@.len()
        &&& self.broadcast_wants.wf()
        &&& forall|i: int| 0 <= i < self.rows@.len() ==> (#[trigger] self.rows@[i]).wf()
    }

    proof fn lemma_rows_wf(&self)
        requires
            self.wf(),
        ensures
            self.rows_wf(),
    {
        assert forall|i: int| 0 <= i < self.rows@.len() implies (#[trigger] self.rows@[i]).wf() by {
            assert(self@.peers[i].1 == self.rows@[i].sent());
        }
    }

    proof fn lemma_wf_from_rows(&self)
        requires
            self.rows_wf(),
            keys_of(self@.peers).no_duplicates(),
        ensures
            self.wf(),
    {
        assert forall|i: int| 0 <= i < self@.peers.len() implies sent_wf(
            (#[trigger] self@.peers[i]).1,
        ) by {
            assert(self.rows@[i].wf());
        }
    }

    pub fn new() -> (m: Self)
        ensures
            m@.peers == Seq::<(PeerId, Sent)>::empty(),
            m@.broadcast == Seq::<Cid>::empty(),
            m.wf(),
    {
        let m = PeerWantManager { rows: Vec::new(), broadcast_wants: KeySet::new() };
        assert(m@.peers =~= Seq::<(PeerId, Sent)>::empty());
        assert(keys_of(m@.peers) =~= Seq::<PeerId>::empty());
        m
    }

    fn position(&self, peer: &PeerId) -> (r: Option<usize>)
        requires
            self.wf(),
        ensures
            r is Some <==> keys_of(self@.peers).contains(*peer),
            r matches Some(i) ==> i < self@.peers.len() && self@.peers[i as int].0 == *peer && i
                == keys_of(self@.peers).index_of(*peer),
            r is None ==> lookup(self@.peers, *peer) is None,
            r matches Some(i) ==> lookup(self@.peers, *peer) == Some(self@.peers[i as int].1),
    {
        let mut i: usize = 0;
        while i < self.rows.len()
            invariant
                self.wf(),
                i <= self.rows@.len(),
                self@.peers.len() == self.rows@.len(),
                forall|j: int| 0 <= j < i ==> (#[trigger] self@.peers[j]).0 != *peer,
            decreases self.rows@.len() - i,
        {
            if self.rows[i].peer.same(peer) {
                proof {
                    assert(self@.peers[i as int].0 == *peer);
                    lemma_lookup_at(self@.peers, i as int);
                }
                return Some(i);
            }
            assert(self@.peers[i as int].0 != *peer);
            i += 1;
        }
        proof {
            lemma_lookup_none(self@.peers, *peer);
        }
        None
    }

    /// Whether `peer` is connected.
    pub fn has_peer(&self, peer: &PeerId) -> (b: bool)
        requires
            self.wf(),
        ensures
            b == keys_of(self@.peers).contains(*peer),
    {
        self.position(peer).is_some()
    }

    /// The connected peers, in the order in which they connected.
    pub fn peers(&self) -> (v: Vec<PeerId>)
        ensures
            v@ == keys_of(self@.peers),
    {
        let mut v: Vec<PeerId> = Vec::new();
        let mut i: usize = 0;
        while i < self.rows.len()
            invariant
                i <= self.rows@.len(),
                v@.len() == i,
                forall|j: int| 0 <= j < i ==> v@[j] == self.rows@[j].peer,
            decreases self.rows@.len() - i,
        {
            v.push(self.rows[i].peer);
            i += 1;
        }
        assert(v@ =~= keys_of(self@.peers));
        v
    }

    /// Takes note that `peer` has connected. Returns the blocks about which
    /// the peer has to be asked now: those that are asked of every peer. For
    /// a peer that is connected already nothing changes and nothing is sent.
    pub fn add_peer(&mut self, peer: PeerId) -> (haves: Vec<Cid>)
        requires
            old(self).wf(),
        ensures
            final(self).wf(),
            final(self)@.broadcast == old(self)@.broadcast,
            keys_of(old(self)@.peers).contains(peer) ==> final(self)@ == old(self)@ && haves@
                == Seq::<Cid>::empty(),
            !keys_of(old(self)@.peers).contains(peer) ==> final(self)@.peers == old(self)@.peers.push(
                (peer, (Sent { blocks: Seq::empty(), haves: old(self)@.broadcast })),
            ) && haves@ == old(self)@.broadcast,
    {
        proof {
            self.lemma_rows_wf();
        }
        if self.position(&peer).is_some() {
            return Vec::new();
        }
        let ghost before = self@;
        let haves = self.broadcast_wants.to_vec();
        self.rows.push(
            Row { peer, want_blocks: KeySet::new(), want_haves: self.broadcast_wants.duplicate() },
        );
        proof {
            let row = (peer, (Sent { blocks: Seq::empty(), haves: before.broadcast }));
            assert(self@.peers =~= before.peers.push(row));
            crate::keymap::lemma_with_entry(before.peers, peer, row.1, peer);
            assert(crate::keymap::with_entry(before.peers, peer, row.1) == before.peers.push(row));
            self.lemma_wf_from_rows();
        }
        haves
    }

    /// Forgets `peer`, and has every other peer asked about the blocks of
    /// which the forgotten peer had been told, as far as the other peer was
    /// told nothing of them. Returns, for each remaining peer in order, the
    /// blocks about which it has to be asked now.
    pub fn remove_peer(&mut self, peer: &PeerId) -> (out: Vec<Batch>)
        requires
            old(self).wf(),
        ensures
            final(self).wf(),
            final(self)@.broadcast == old(self)@.broadcast,
            match lookup(old(self)@.peers, *peer) {
                None => final(self)@ == old(self)@ && out@.len() == 0,
                Some(gone) => {
                    let rest = without_entry(old(self)@.peers, *peer);
                    let lost = gone.blocks + gone.haves;
                    &&& final(self)@.peers == rest.map_values(
                        |e: (PeerId, Sent)| (e.0, ask_haves(e.1, lost)),
                    )
                    &&& out@.len() == rest.len()
                    &&& forall|i: int|
                        0 <= i < rest.len() ==> (#[trigger] out@[i]).peer == rest[i].0 && out@[i].cids@
                            == haves_to_ask(rest[i].1, lost)
                },
            },
    {
        proof {
            self.lemma_rows_wf();
        }
        let ghost before = self@;
        match self.position(peer) {
            None => Vec::new(),
            Some(i) => {
                let row = self.rows.remove(i);
                let mut lost = row.want_blocks.to_vec();
                let mut tail = row.want_haves.to_vec();
                lost.append(&mut tail);
                proof {
                    crate::keymap::lemma_without_entry(before.peers, *peer, *peer);
                    assert(self@.peers =~= without_entry(before.peers, *peer));
                    self.lemma_wf_from_rows();
                }
                self.ask_haves_of_all(&lost)
            },
        }
    }

    /// Asks every peer about `cids`, as far as it was told nothing of them.
    fn ask_haves_of_all(&mut self, cids: &Vec<Cid>) -> (out: Vec<Batch>)
        requires
            old(self).wf(),
        ensures
            final(self).wf(),
            final(self)@.broadcast == old(self)@.broadcast,
            final(self)@.peers == old(self)@.peers.map_values(
                |e: (PeerId, Sent)| (e.0, ask_haves(e.1, cids@)),
            ),
            out@.len() == old(self)@.peers.len(),
            forall|i: int|
                0 <= i < old(self)@.peers.len() ==> (#[trigger] out@[i]).peer == old(self)@.peers[i].0
                    && out@[i].cids@ == haves_to_ask(old(self)@.peers[i].1, cids@),
    {
        proof {
            self.lemma_rows_wf();
        }
        let ghost before = self@;
        let mut out: Vec<Batch> = Vec::new();
        let mut i: usize = 0;
        while i < self.rows.len()
            invariant
                self.rows_wf(),
                i <= self.rows@.len(),
                self.rows@.len() == before.peers.len(),
                self@.broadcast == before.broadcast,
                out@.len() == i,
                forall|j: int|
                    0 <= j < i ==> (#[trigger] self@.peers[j]) == (
                        before.peers[j].0,
                        ask_haves(before.peers[j].1, cids@),
                    ),
                forall|j: int| i <= j < self.rows@.len() ==> (#[trigger] self@.peers[j]) == before.peers[j],
                forall|j: int|
                    0 <= j < i ==> (#[trigger] out@[j]).peer == before.peers[j].0 && out@[j].cids@
                        == haves_to_ask(before.peers[j].1, cids@),
            decreases self.rows@.len() - i,
        {
            let ghost mid = self@;
            assert(mid.peers[i as int] == before.peers[i as int]);
            let asked = self.rows[i].ask_haves(cids);
            out.push(Batch { peer: self.rows[i].peer, cids: asked });
            proof {
                assert forall|j: int| 0 <= j < i + 1 implies (#[trigger] self@.peers[j]) == (
                    before.peers[j].0,
                    ask_haves(before.peers[j].1, cids@),
                ) by {
                    if j < i {
                        assert(self@.peers[j] == mid.peers[j]);
                    }
                }
                assert forall|j: int| i + 1 <= j < self.rows@.len() implies (
                #[trigger] self@.peers[j]) == before.peers[j] by {
                    assert(self@.peers[j] == mid.peers[j]);
                }
            }
            i += 1;
        }
        proof {
            let f = |e: (PeerId, Sent)| (e.0, ask_haves(e.1, cids@));
            assert(self@.peers =~= before.peers.map_values(f));
            assert(keys_of(self@.peers) =~= keys_of(before.peers));
            self.lemma_wf_from_rows();
        }
        out
    }

    /// Has every connected peer, and every peer that connects later, asked
    /// whether it has `cids`. Returns, for each connected peer in order, the
    /// blocks about which it has to be asked now: those of `cids` of which it
    /// was told nothing yet.
    pub fn broadcast_want_haves(&mut self, cids: &Vec<Cid>) -> (out: Vec<Batch>)
        requires
            old(self).wf(),
        ensures
            final(self).wf(),
            final(self)@.broadcast == union(old(self)@.broadcast, cids@),
            final(self)@.peers == old(self)@.peers.map_values(
                |e: (PeerId, Sent)| (e.0, ask_haves(e.1, cids@)),
            ),
            out@.len() == old(self)@.peers.len(),
            forall|i: int|
                0 <= i < old(self)@.peers.len() ==> (#[trigger] out@[i]).peer == old(self)@.peers[i].0
                    && out@[i].cids@ == haves_to_ask(old(self)@.peers[i].1, cids@),
    {
        proof {
            self.lemma_rows_wf();
        }
        let ghost before = self@;
        self.broadcast_wants.extend(cids);
        proof {
            assert(self@.peers =~= before.peers);
            self.lemma_wf_from_rows();
        }
        self.ask_haves_of_all(cids)
    }

    /// Asks `peer` to send `want_blocks` and to say whether it has
    /// `want_haves`. Returns the blocks for which a want-block has to be sent
    /// now, and the blocks for which a want-have has to be sent now. For a
    /// peer that is not connected nothing changes and nothing is sent.
    pub fn send_wants(&mut self, peer: &PeerId, want_blocks: &Vec<Cid>, want_haves: &Vec<Cid>) -> (out:
        (Vec<Cid>, Vec<Cid>))
        requires
            old(self).wf(),
        ensures
            final(self).wf(),
            final(self)@.broadcast == old(self)@.broadcast,
            match lookup(old(self)@.peers, *peer) {
                None => final(self)@ == old(self)@ && out.0@.len() == 0 && out.1@.len() == 0,
                Some(s) => {
                    &&& final(self)@.peers == crate::keymap::with_entry(
                        old(self)@.peers,
                        *peer,
                        ask_haves(ask_blocks(s, want_blocks@), want_haves@),
                    )
                    &&& out.0@ == blocks_to_ask(s, want_blocks@)
                    &&& out.1@ == haves_to_ask(ask_blocks(s, want_blocks@), want_haves@)
                },
            },
    {
        proof {
            self.lemma_rows_wf();
        }
        let ghost before = self@;
        match self.position(peer) {
            None => (Vec::new(), Vec::new()),
            Some(i) => {
                let blocks = self.rows[i].ask_blocks(want_blocks);
                let haves = self.rows[i].ask_haves(want_haves);
                proof {
                    let s = before.peers[i as int].1;
                    let t = ask_haves(ask_blocks(s, want_blocks@), want_haves@);
                    assert(self@.peers =~= crate::keymap::with_entry(before.peers, *peer, t));
                    crate::keymap::lemma_with_entry(before.peers, *peer, t, *peer);
                    self.lemma_wf_from_rows();
                }
                (blocks, haves)
            },
        }
    }

    /// Takes note that `peer` has sent the blocks `cids`: what was asked of
    /// it about them is settled, and nothing is left to take back from it.
    pub fn forget(&mut self, peer: &PeerId, cids: &Vec<Cid>)
        requires
            old(self).wf(),
        ensures
            final(self).wf(),
            final(self)@.broadcast == old(self)@.broadcast,
            match lookup(old(self)@.peers, *peer) {
                None => final(self)@ == old(self)@,
                Some(s) => final(self)@.peers == crate::keymap::with_entry(
                    old(self)@.peers,
                    *peer,
                    retract(s, cids@),
                ),
            },
    {
        proof {
            self.lemma_rows_wf();
        }
        let ghost before = self@;
        match self.position(peer) {
            None => {},
            Some(i) => {
                let _ = self.rows[i].retract(cids);
                proof {
                    let s = before.peers[i as int].1;
                    let t = retract(s, cids@);
                    assert(self@.peers =~= crate::keymap::with_entry(before.peers, *peer, t));
                    crate::keymap::lemma_with_entry(before.peers, *peer, t, *peer);
                    self.lemma_wf_from_rows();
                }
            },
        }
    }

    /// Takes back the wants for `cids` from every peer, and stops asking
    /// peers that connect later about them. Returns, for each connected peer
    /// in order, the blocks for which a cancel has to be sent: those of
    /// `cids` of which that peer was told.
    pub fn send_cancels(&mut self, cids: &Vec<Cid>) -> (out: Vec<Batch>)
        requires
            old(self).wf(),
        ensures
            final(self).wf(),
            final(self)@.broadcast == difference(old(self)@.broadcast, cids@),
            final(self)@.peers == old(self)@.peers.map_values(
                |e: (PeerId, Sent)| (e.0, retract(e.1, cids@)),
            ),
            out@.len() == old(self)@.peers.len(),
            forall|i: int|
                0 <= i < old(self)@.peers.len() ==> (#[trigger] out@[i]).peer == old(self)@.peers[i].0
                    && out@[i].cids@ == cancels_to_send(old(self)@.peers[i].1, cids@),
    {
        proof {
            self.lemma_rows_wf();
        }
        let ghost before = self@;
        self.broadcast_wants.remove_all(cids);
        let mut out: Vec<Batch> = Vec::new();
        let mut i: usize = 0;
        assert(self@.peers =~= before.peers);
        while i < self.rows.len()
            invariant
                self.rows_wf(),
                i <= self.rows@.len(),
                self.rows@.len() == before.peers.len(),
                self@.broadcast == difference(before.broadcast, cids@),
                out@.len() == i,
                forall|j: int|
                    0 <= j < i ==> (#[trigger] self@.peers[j]) == (
                        before.peers[j].0,
                        retract(before.peers[j].1, cids@),
                    ),
                forall|j: int| i <= j < self.rows@.len() ==> (#[trigger] self@.peers[j]) == before.peers[j],
                forall|j: int|
                    0 <= j < i ==> (#[trigger] out@[j]).peer == before.peers[j].0 && out@[j].cids@
                        == cancels_to_send(before.peers[j].1, cids@),
            decreases self.rows@.len() - i,
        {
            let ghost mid = self@;
            assert(mid.peers[i as int] == before.peers[i as int]);
            let cancels = self.rows[i].retract(cids);
            out.push(Batch { peer: self.rows[i].peer, cids: cancels });
            proof {
                assert forall|j: int| 0 <= j < i + 1 implies (#[trigger] self@.peers[j]) == (
                    before.peers[j].0,
                    retract(before.peers[j].1, cids@),
                ) by {
                    if j < i {
                        assert(self@.peers[j] == mid.peers[j]);
                    }
                }
                assert forall|j: int| i + 1 <= j < self.rows@.len() implies (
                #[trigger] self@.peers[j]) == before.peers[j] by {
                    assert(self@.peers[j] == mid.peers[j]);
                }
            }
            i += 1;
        }
        proof {
            let f = |e: (PeerId, Sent)| (e.0, retract(e.1, cids@));
            assert(self@.peers =~= before.peers.map_values(f));
            assert(keys_of(self@.peers) =~= keys_of(before.peers));
            self.lemma_wf_from_rows();
        }
        out
    }

    /// The blocks that some peer was asked to send, each once.
    pub fn current_want_blocks(&self) -> (v: Vec<Cid>)
        requires
            self.wf(),
        ensures
            v@ == all_blocks(self@.peers),
            v@.no_duplicates(),
    {
        proof {
            self.lemma_rows_wf();
        }
        let ghost peers = self@.peers;
        let mut set: KeySet<Cid> = KeySet::new();
        let mut i: usize = 0;
        while i < self.rows.len()
            invariant
                self.rows_wf(),
                peers == self@.peers,
                i <= self.rows@.len(),
                set.wf(),
                set@ == all_blocks(peers.subrange(0, i as int)),
            decreases self.rows@.len() - i,
        {
            proof {
                assert(peers.subrange(0, i + 1).drop_last() =~= peers.subrange(0, i as int));
                assert(peers.subrange(0, i + 1).last() == peers[i as int]);
            }
            let blocks = self.rows[i].want_blocks.to_vec();
            set.extend(&blocks);
            i += 1;
        }
        assert(peers.subrange(0, peers.len() as int) =~= peers);
        set.to_vec()
    }

    /// The blocks of which some peer was asked whether it has them, each
    /// once.
    pub fn current_want_haves(&self) -> (v: Vec<Cid>)
        requires
            self.wf(),
        ensures
            v@ == all_haves(self@.peers),
            v@.no_duplicates(),
    {
        proof {
            self.lemma_rows_wf();
        }
        let ghost peers = self@.peers;
        let mut set: KeySet<Cid> = KeySet::new();
        let mut i: usize = 0;
        while i < self.rows.len()
            invariant
                self.rows_wf(),
                peers == self@.peers,
                i <= self.rows@.len(),
                set.wf(),
                set@ == all_haves(peers.subrange(0, i as int)),
            decreases self.rows@.len() - i,
        {
            proof {
                assert(peers.subrange(0, i + 1).drop_last() =~= peers.subrange(0, i as int));
                assert(peers.subrange(0, i + 1).last() == peers[i as int]);
            }
            let haves = self.rows[i].want_haves.to_vec();
            set.extend(&haves);
            i += 1;
        }
        assert(peers.subrange(0, peers.len() as int) =~= peers);
        set.to_vec()
    }

    /// Everything that is wanted: the blocks asked of every peer, the blocks
    /// that some peer was asked to send, and the blocks of which some peer
    /// was asked whether it has them, each once.
    pub fn current_wants(&self) -> (v: Vec<Cid>)
        requires
            self.wf(),
        ensures
            v@ == union(
                union(self@.broadcast, all_blocks(self@.peers)),
                all_haves(self@.peers),
            ),
            v@.no_duplicates(),
    {
        proof {
            self.lemma_rows_wf();
        }
        let mut set = self.broadcast_wants.duplicate();
        let blocks = self.current_want_blocks();
        let haves = self.current_want_haves();
        set.extend(&blocks);
        set.extend(&haves);
        set.to_vec()
    }
}

} // verus!
