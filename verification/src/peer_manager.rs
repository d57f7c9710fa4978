//! The connected peers, each with its message queue, and the record of what
//! has been asked of whom.

use crate::cid_set::{cid_set_contents, cid_set_from};
use crate::ident::{Cid, Key, PeerId};
use crate::keymap::{keys_of, lookup, without_entry};
use crate::keyset::{difference, union};
use crate::message_queue::{response_timeout, response_timeout_for, MessageQueue, QueueConfig, QueueState, QueueView, SendOutcome};
use crate::peer_want_manager::{all_blocks, all_haves, ask_blocks, ask_haves, blocks_to_ask, cancels_to_send, haves_to_ask, retract, Batch, PeerWantManager, Sent, WantState};
use crate::session_peer_manager::{ewma, ewma_update};
use crate::wantlist::Entry;
use ahash::AHashSet;
use vstd::prelude::*;

verus! {

/// What is known of one connected peer.
pub ghost struct PeerView {
    pub peer: PeerId,
    pub queue: QueueView,
    /// Whether a round trip to the peer was ever measured.
    pub measured: bool,
    /// The smoothed round-trip time in milliseconds; zero before any
    /// measurement.
    pub rtt: u64,
}

/// The state of the peer manager.
pub ghost struct PeerManagerView {
    /// What has been asked of whom.
    pub wants: WantState,
    /// The connected peers, in the order in which they connected.
    pub peers: Seq<PeerView>,
    /// The settings that the queue of a new peer gets.
    pub config: QueueConfig,
}

/// The first of `cids` for which `awaiting` holds a time of sending, with
/// that time.
pub open spec fn first_awaited(awaiting: Seq<(Cid, u64)>, cids: Seq<Cid>) -> Option<u64>
    decreases cids.len(),
{
    if cids.len() == 0 {
        None
    } else if lookup(awaiting, cids[0]) is Some {
        lookup(awaiting, cids[0])
    } else {
        first_awaited(awaiting, cids.drop_first())
    }
}

/// The round trip that an answer for `cids` at time `now` gives: the time
/// since the first of them that is still awaited went out.
pub open spec fn measured_latency(q: QueueView, cids: Seq<Cid>, now: u64) -> Option<u64> {
    match first_awaited(q.awaiting, cids) {
        Some(t) => if now >= t {
            Some((now - t) as u64)
        } else {
            None
        },
        None => None,
    }
}

impl PeerView {
    /// The peer after it answered for `cids` at time `now`.
    pub open spec fn answered(self, cids: Seq<Cid>, now: u64) -> PeerView {
        let q = self.queue.response_received(cids);
        match measured_latency(self.queue, cids, now) {
            None => PeerView { queue: q, ..self },
            Some(sample) => {
                let rtt = if self.measured {
                    ewma(self.rtt, sample)
                } else {
                    sample
                };
                PeerView {
                    queue: (QueueView {
                        config: (QueueConfig {
                            response_timeout: response_timeout_for(rtt),
                            ..q.config
                        }),
                        ..q
                    }),
                    measured: true,
                    rtt,
                    ..self
                }
            },
        }
    }
}

impl PeerManagerView {
    /// The state is in order: the record of wants is, every queue is, and
    /// the peers of the queues are the peers of the record, in the same
    /// order.
    pub open spec fn wf(self) -> bool {
        &&& keys_of(self.wants.peers).no_duplicates()
        &&& forall|i: int|
            0 <= i < self.wants.peers.len() ==> crate::peer_want_manager::sent_wf(
                (#[trigger] self.wants.peers[i]).1,
            )
        &&& self.wants.broadcast.no_duplicates()
        &&& self.peers.len() == self.wants.peers.len()
        &&& forall|i: int|
            0 <= i < self.peers.len() ==> (#[trigger] self.peers[i]).queue.wf() && self.peers[i].peer
                == self.wants.peers[i].0
    }

    /// Where `peer` stands among the connected peers, if it is connected.
    pub open spec fn index_of(self, peer: PeerId) -> Option<int> {
        if keys_of(self.wants.peers).contains(peer) {
            Some(keys_of(self.wants.peers).index_of(peer))
        } else {
            None
        }
    }

    /// Whether `peer` is connected.
    pub open spec fn is_connected(self, peer: PeerId) -> bool {
        keys_of(self.wants.peers).contains(peer)
    }

    /// The state after `peer` connected at time `now`: it is asked about the
    /// blocks that are asked of every peer.
    pub open spec fn connected(self, peer: PeerId, priority: i32, now: u64) -> PeerManagerView {
        if self.is_connected(peer) {
            self
        } else {
            PeerManagerView {
                wants: WantState {
                    peers: self.wants.peers.push(
                        (peer, Sent { blocks: Seq::empty(), haves: self.wants.broadcast }),
                    ),
                    ..self.wants
                },
                peers: self.peers.push(
                    PeerView {
                        peer,
                        queue: fresh_queue(self.config, now).add_wants(
                            Seq::empty(),
                            self.wants.broadcast,
                            priority,
                            false,
                            now,
                        ),
                        measured: false,
                        rtt: 0,
                    },
                ),
                ..self
            }
        }
    }

    /// The state after want-haves for `cids` were handed to every peer and
    /// noted for every peer that connects later.
    pub open spec fn broadcast_want_haves(self, cids: Seq<Cid>, priority: i32, now: u64) -> PeerManagerView {
        PeerManagerView {
            wants: WantState {
                peers: self.wants.peers.map_values(|e: (PeerId, Sent)| (e.0, ask_haves(e.1, cids))),
                broadcast: union(self.wants.broadcast, cids),
            },
            peers: Seq::new(
                self.peers.len(),
                |i: int|
                    PeerView {
                        queue: self.peers[i].queue.add_wants(
                            Seq::empty(),
                            haves_to_ask(self.wants.peers[i].1, cids),
                            priority,
                            false,
                            now,
                        ),
                        ..self.peers[i]
                    },
            ),
            ..self
        }
    }

    /// The state after `peer` was asked to send `want_blocks` and to say
    /// whether it has `want_haves`.
    pub open spec fn send_wants(
        self,
        peer: PeerId,
        want_blocks: Seq<Cid>,
        want_haves: Seq<Cid>,
        priority: i32,
        now: u64,
    ) -> PeerManagerView {
        match self.index_of(peer) {
            None => self,
            Some(i) => {
                let s = self.wants.peers[i].1;
                let t = ask_blocks(s, want_blocks);
                PeerManagerView {
                    wants: WantState {
                        peers: self.wants.peers.update(i, (peer, ask_haves(t, want_haves))),
                        ..self.wants
                    },
                    peers: self.peers.update(
                        i,
                        PeerView {
                            queue: self.peers[i].queue.add_wants(
                                blocks_to_ask(s, want_blocks),
                                haves_to_ask(t, want_haves),
                                priority,
                                true,
                                now,
                            ),
                            ..self.peers[i]
                        },
                    ),
                    ..self
                }
            },
        }
    }

    /// The state after the wants for `cids` were taken back from every peer.
    pub open spec fn send_cancels(self, cids: Seq<Cid>, now: u64) -> PeerManagerView {
        PeerManagerView {
            wants: WantState {
                peers: self.wants.peers.map_values(|e: (PeerId, Sent)| (e.0, retract(e.1, cids))),
                broadcast: difference(self.wants.broadcast, cids),
            },
            peers: Seq::new(
                self.peers.len(),
                |i: int|
                    PeerView {
                        queue: self.peers[i].queue.add_cancels(
                            cancels_to_send(self.wants.peers[i].1, cids),
                            now,
                        ),
                        ..self.peers[i]
                    },
            ),
            ..self
        }
    }

    /// The state after `peer` disconnected at time `now`: the peer and its
    /// queue are gone, and every other peer is asked about the blocks of
    /// which the lost peer had been told.
    pub open spec fn disconnected(self, peer: PeerId, priority: i32, now: u64) -> PeerManagerView {
        match self.index_of(peer) {
            None => self,
            Some(i) => {
                let gone = self.wants.peers[i].1;
                let lost = gone.blocks + gone.haves;
                let rest = self.wants.peers.remove(i);
                let others = self.peers.remove(i);
                PeerManagerView {
                    wants: WantState {
                        peers: rest.map_values(|e: (PeerId, Sent)| (e.0, ask_haves(e.1, lost))),
                        ..self.wants
                    },
                    peers: Seq::new(
                        others.len(),
                        |j: int|
                            PeerView {
                                queue: others[j].queue.add_wants(
                                    Seq::empty(),
                                    haves_to_ask(rest[j].1, lost),
                                    priority,
                                    false,
                                    now,
                                ),
                                ..others[j]
                            },
                    ),
                    ..self
                }
            },
        }
    }

    /// The state after each of `peers` in turn was asked to send `cid`.
    pub open spec fn want_block_from(self, peers: Seq<PeerId>, cid: Cid, priority: i32, now: u64) -> PeerManagerView
        decreases peers.len(),
    {
        if peers.len() == 0 {
            self
        } else {
            self.want_block_from(peers.drop_last(), cid, priority, now).send_wants(
                peers.last(),
                seq![cid],
                Seq::empty(),
                priority,
                now,
            )
        }
    }

    /// The state after every connected peer was asked to send `cid`.
    pub open spec fn broadcast_want_block(self, cid: Cid, priority: i32, now: u64) -> PeerManagerView {
        self.want_block_from(keys_of(self.wants.peers), cid, priority, now)
    }

    /// The state after every queue was stopped.
    pub open spec fn stop(self) -> PeerManagerView {
        PeerManagerView {
            peers: Seq::new(
                self.peers.len(),
                |i: int| PeerView { queue: self.peers[i].queue.stop(), ..self.peers[i] },
            ),
            ..self
        }
    }

    /// The state after `peer` sent the blocks `cids`: its wants for them are
    /// settled without a cancel.
    pub open spec fn block_received(self, peer: PeerId, cids: Seq<Cid>) -> PeerManagerView {
        match self.index_of(peer) {
            None => self,
            Some(i) => PeerManagerView {
                wants: WantState {
                    peers: self.wants.peers.update(i, (peer, retract(self.wants.peers[i].1, cids))),
                    ..self.wants
                },
                peers: self.peers.update(
                    i,
                    PeerView { queue: self.peers[i].queue.resolve(cids), ..self.peers[i] },
                ),
                ..self
            },
        }
    }

    /// The state with `q` as the queue of the peer at position `i`.
    pub open spec fn with_queue(self, i: int, q: QueueView) -> PeerManagerView {
        PeerManagerView { peers: self.peers.update(i, PeerView { queue: q, ..self.peers[i] }), ..self }
    }

    /// The state after a message for `peer` was asked for at time `now`.
    pub open spec fn poll(self, peer: PeerId, now: u64) -> PeerManagerView {
        match self.index_of(peer) {
            None => self,
            Some(i) => self.with_queue(i, self.peers[i].queue.poll(now)),
        }
    }

    /// The message for `peer` that is made at time `now`, if one is.
    pub open spec fn next_message(self, peer: PeerId, now: u64) -> Option<Seq<Entry>> {
        match self.index_of(peer) {
            None => None,
            Some(i) => self.peers[i].queue.next_message(now),
        }
    }

    /// How the sending to `peer` that is under way ends.
    pub open spec fn outcome(self, peer: PeerId, ok: bool) -> SendOutcome {
        match self.index_of(peer) {
            None => SendOutcome::Ignored,
            Some(i) => self.peers[i].queue.outcome(ok),
        }
    }

    /// The state after the sending to `peer` ended at time `now`. A peer that
    /// is out of reach is treated as disconnected.
    pub open spec fn send_complete(self, peer: PeerId, ok: bool, priority: i32, now: u64) -> PeerManagerView {
        match self.index_of(peer) {
            None => self,
            Some(i) => if self.outcome(peer, ok) is Unreachable {
                self.disconnected(peer, priority, now)
            } else {
                self.with_queue(i, self.peers[i].queue.send_complete(ok, now))
            },
        }
    }

    /// The state after `peer` answered for `cids` at time `now`.
    pub open spec fn response_received(self, peer: PeerId, cids: Seq<Cid>, now: u64) -> PeerManagerView {
        match self.index_of(peer) {
            None => self,
            Some(i) => PeerManagerView { peers: self.peers.update(i, self.peers[i].answered(cids, now)), ..self },
        }
    }

    /// The round trip that an answer of `peer` for `cids` at time `now`
    /// gives.
    pub open spec fn latency(self, peer: PeerId, cids: Seq<Cid>, now: u64) -> Option<u64> {
        match self.index_of(peer) {
            None => None,
            Some(i) => measured_latency(self.peers[i].queue, cids, now),
        }
    }

    /// The wants for which `peer` has been given its time to answer at `now`.
    pub open spec fn expired(self, peer: PeerId, now: u64) -> Seq<Cid> {
        match self.index_of(peer) {
            None => Seq::empty(),
            Some(i) => self.peers[i].queue.expired(now),
        }
    }

    /// The state after those wants were taken out.
    pub open spec fn expire(self, peer: PeerId, now: u64) -> PeerManagerView {
        match self.index_of(peer) {
            None => self,
            Some(i) => self.with_queue(i, self.peers[i].queue.expire(now)),
        }
    }

    /// The state after the time for sending the open wants to `peer` again
    /// was looked at.
    pub open spec fn rebroadcast(self, peer: PeerId, now: u64) -> PeerManagerView {
        match self.index_of(peer) {
            None => self,
            Some(i) => self.with_queue(i, self.peers[i].queue.rebroadcast(now)),
        }
    }
}

/// The state of a peer manager that knows no peer and has asked for
/// nothing, whose queues get the settings `config`.
pub open spec fn no_peers(config: QueueConfig) -> PeerManagerView {
    PeerManagerView {
        wants: WantState { peers: Seq::empty(), broadcast: Seq::empty() },
        peers: Seq::empty(),
        config,
    }
}

/// The queue of a peer that has just connected at time `now`.
pub open spec fn fresh_queue(config: QueueConfig, now: u64) -> QueueView {
    QueueView {
        config,
        state: QueueState::Idle,
        pending: Seq::empty(),
        cancels: Seq::empty(),
        in_flight: Seq::empty(),
        outstanding: Seq::empty(),
        awaiting: Seq::empty(),
        ready_at: 0,
        failures: 0,
        rebroadcast_at: crate::message_queue::sat_add(now, config.rebroadcast_interval),
    }
}

/// After a peer has disconnected nothing is sent to it, and the other peers
/// cover for it: the peer is not connected, no message is made for it at
/// any time, and every remaining peer has been told of each block of which
/// the lost peer had been told. A remaining peer that had been told nothing
/// of such a block has the want for it in its queue when the event is
/// over, so that it goes out with the queue's next message.
pub proof fn lemma_disconnected(v: PeerManagerView, peer: PeerId, priority: i32, now: u64, later: u64, i: int, c: Cid)
    requires
        v.wf(),
        v.is_connected(peer),
    ensures
        !v.disconnected(peer, priority, now).is_connected(peer),
        v.disconnected(peer, priority, now).next_message(peer, later) is None,
        v.disconnected(peer, priority, now).peers.len() == v.peers.len() - 1,
        0 <= i < v.peers.len() - 1 && crate::peer_want_manager::told_peer(v.wants, peer, c) is Some
            ==> crate::peer_want_manager::told(
            v.disconnected(peer, priority, now).wants.peers[i].1,
            c,
        ) is Some,
        0 <= i < v.peers.len() - 1 && crate::peer_want_manager::told_peer(v.wants, peer, c) is Some
            && covers_anew(v, peer, i, c) ==> crate::wantlist::entry_of(
            v.disconnected(peer, priority, now).peers[i].queue.pending,
            c,
        ) is Some,
{
    let keys = keys_of(v.wants.peers);
    let p = keys.index_of(peer);
    assert(0 <= p < keys.len() && keys[p] == peer);
    let gone = v.wants.peers[p].1;
    let lost = gone.blocks + gone.haves;
    let rest = v.wants.peers.remove(p);
    let after = v.disconnected(peer, priority, now);
    crate::keymap::lemma_lookup_at(v.wants.peers, p);
    crate::keymap::lemma_without_entry(v.wants.peers, peer, peer);
    assert(rest == without_entry(v.wants.peers, peer));
    let f = |e: (PeerId, Sent)| (e.0, ask_haves(e.1, lost));
    assert(keys_of(rest.map_values(f)) =~= keys_of(rest));
    if keys_of(rest).contains(peer) {
        let q = choose|q: int| 0 <= q < rest.len() && keys_of(rest)[q] == peer;
        crate::keymap::lemma_lookup_at(rest, q);
    }
    if 0 <= i < v.peers.len() - 1 && crate::peer_want_manager::told_peer(v.wants, peer, c) is Some {
        if gone.blocks.contains(c) {
            let k = choose|k: int| 0 <= k < gone.blocks.len() && gone.blocks[k] == c;
            assert(lost[k] == c);
        } else {
            let k = choose|k: int| 0 <= k < gone.haves.len() && gone.haves[k] == c;
            assert(lost[gone.blocks.len() + k] == c);
        }
        crate::peer_want_manager::lemma_cover(rest[i].1, lost, c);
        if covers_anew(v, peer, i, c) {
            let others = v.peers.remove(p);
            crate::message_queue::lemma_wants_are_queued(
                others[i].queue,
                Seq::empty(),
                haves_to_ask(rest[i].1, lost),
                priority,
                false,
                now,
                c,
            );
        }
    }
}

/// Whether the peer that stands at place `i` once `peer` is gone has to be
/// asked anew about `cid`: it was told nothing of the block, and its queue
/// takes wants.
pub open spec fn covers_anew(v: PeerManagerView, peer: PeerId, i: int, cid: Cid) -> bool {
    let p = keys_of(v.wants.peers).index_of(peer);
    &&& crate::peer_want_manager::told(v.wants.peers.remove(p)[i].1, cid) is None
    &&& !(v.peers.remove(p)[i].queue.state is Closing)
}

/// After the wants for some blocks were taken back, nothing more is asked
/// about them: every peer counts as told nothing of them, and in the queue
/// of a peer that had been told of one, no want for it waits to be sent.
pub proof fn lemma_send_cancels(v: PeerManagerView, cids: Seq<Cid>, now: u64, i: int, c: Cid)
    requires
        v.wf(),
        cids.contains(c),
        0 <= i < v.peers.len(),
    ensures
        crate::peer_want_manager::told(v.send_cancels(cids, now).wants.peers[i].1, c) is None,
        crate::peer_want_manager::told(v.wants.peers[i].1, c) is Some && !(
        v.peers[i].queue.state is Closing) ==> crate::wantlist::entry_of(
            v.send_cancels(cids, now).peers[i].queue.pending,
            c,
        ) is None,
{
    let s = v.wants.peers[i].1;
    crate::peer_want_manager::lemma_retract(s, cids, c);
    crate::keyset::lemma_difference(s.blocks, cids, c);
    crate::keyset::lemma_difference(s.haves, cids, c);
    if crate::peer_want_manager::told(s, c) is Some && !(v.peers[i].queue.state is Closing) {
        crate::message_queue::lemma_cancel_precedence(
            v.peers[i].queue,
            cancels_to_send(s, cids),
            now,
            c,
        );
    }
}

/// Asking one peer about some blocks leaves what every peer was told of
/// every other block as it was.
pub proof fn lemma_send_wants_leaves_others(
    v: PeerManagerView,
    peer: PeerId,
    want_blocks: Seq<Cid>,
    want_haves: Seq<Cid>,
    priority: i32,
    now: u64,
    p: PeerId,
    c: Cid,
)
    requires
        !want_blocks.contains(c),
        !want_haves.contains(c),
    ensures
        crate::peer_want_manager::told_peer(
            v.send_wants(peer, want_blocks, want_haves, priority, now).wants,
            p,
            c,
        ) == crate::peer_want_manager::told_peer(v.wants, p, c),
{
    let keys = keys_of(v.wants.peers);
    if keys.contains(peer) {
        let i = keys.index_of(peer);
        assert(0 <= i < keys.len() && keys[i] == peer);
        let s = v.wants.peers[i].1;
        let t = ask_blocks(s, want_blocks);
        let after = v.wants.peers.update(i, (peer, ask_haves(t, want_haves)));
        assert(keys_of(after) =~= keys);
        crate::peer_want_manager::lemma_untouched(s, want_blocks, c);
        crate::peer_want_manager::lemma_untouched(t, want_haves, c);
        if keys.contains(p) {
            let j = keys.index_of(p);
            assert(0 <= j < keys.len() && keys[j] == p);
        }
    }
}

/// Asking every peer to send one block leaves what every peer was told of
/// every other block as it was.
pub proof fn lemma_want_block_from_leaves_others(
    v: PeerManagerView,
    peers: Seq<PeerId>,
    cid: Cid,
    priority: i32,
    now: u64,
    p: PeerId,
    c: Cid,
)
    requires
        cid != c,
    ensures
        crate::peer_want_manager::told_peer(
            v.want_block_from(peers, cid, priority, now).wants,
            p,
            c,
        ) == crate::peer_want_manager::told_peer(v.wants, p, c),
    decreases peers.len(),
{
    if peers.len() > 0 {
        lemma_want_block_from_leaves_others(v, peers.drop_last(), cid, priority, now, p, c);
        let mid = v.want_block_from(peers.drop_last(), cid, priority, now);
        assert(!seq![cid].contains(c)) by {
            if seq![cid].contains(c) {
                let i = choose|i: int| 0 <= i < seq![cid].len() && seq![cid][i] == c;
            }
        }
        lemma_send_wants_leaves_others(
            mid,
            peers.last(),
            seq![cid],
            Seq::empty(),
            priority,
            now,
            p,
            c,
        );
    }
}

/// What is asked of all peers about some blocks leaves what every peer
/// was told of every other block as it was; and taking wants back, or
/// settling them on the arrival of blocks, asks nothing new of anybody.
pub proof fn lemma_others_untouched(
    v: PeerManagerView,
    peer: PeerId,
    cids: Seq<Cid>,
    priority: i32,
    now: u64,
    p: PeerId,
    c: Cid,
)
    ensures
        !cids.contains(c) ==> crate::peer_want_manager::told_peer(
            v.broadcast_want_haves(cids, priority, now).wants,
            p,
            c,
        ) == crate::peer_want_manager::told_peer(v.wants, p, c),
        crate::peer_want_manager::asked_nothing_new(
            v.wants,
            v.send_cancels(cids, now).wants,
            p,
            c,
        ),
        crate::peer_want_manager::asked_nothing_new(
            v.wants,
            v.block_received(peer, cids).wants,
            p,
            c,
        ),
{
    let keys = keys_of(v.wants.peers);
    if !cids.contains(c) {
        let change = |s: Sent| ask_haves(s, cids);
        assert forall|s: Sent|
            crate::peer_want_manager::told(#[trigger] change(s), c)
                == crate::peer_want_manager::told(s, c) by {
            crate::peer_want_manager::lemma_untouched(s, cids, c);
        }
        crate::peer_want_manager::lemma_told_after_change(v.wants, change, p, c);
        let f = |e: (PeerId, Sent)| (e.0, ask_haves(e.1, cids));
        let g = |e: (PeerId, Sent)| (e.0, change(e.1));
        assert(v.wants.peers.map_values(f) =~= v.wants.peers.map_values(g));
    }
    {
        let f = |e: (PeerId, Sent)| (e.0, retract(e.1, cids));
        let after = v.wants.peers.map_values(f);
        assert(keys_of(after) =~= keys);
        if keys.contains(p) {
            let j = keys.index_of(p);
            assert(0 <= j < keys.len() && keys[j] == p);
            crate::peer_want_manager::lemma_retract_tells_nothing(v.wants.peers[j].1, cids, c);
        }
    }
    if keys.contains(peer) {
        let i = keys.index_of(peer);
        assert(0 <= i < keys.len() && keys[i] == peer);
        let after = v.wants.peers.update(i, (peer, retract(v.wants.peers[i].1, cids)));
        assert(keys_of(after) =~= keys);
        crate::peer_want_manager::lemma_retract_tells_nothing(v.wants.peers[i].1, cids, c);
        if keys.contains(p) {
            let j = keys.index_of(p);
            assert(0 <= j < keys.len() && keys[j] == p);
        }
    }
}

/// After the wants for some blocks were taken back, no peer counts as told
/// of any of them.
pub proof fn lemma_cancel_tells_nothing(v: PeerManagerView, cids: Seq<Cid>, now: u64, p: PeerId, c: Cid)
    requires
        cids.contains(c),
    ensures
        crate::peer_want_manager::told_peer(v.send_cancels(cids, now).wants, p, c) is None,
{
    let keys = keys_of(v.wants.peers);
    let f = |e: (PeerId, Sent)| (e.0, retract(e.1, cids));
    let after = v.wants.peers.map_values(f);
    assert(keys_of(after) =~= keys);
    if keys.contains(p) {
        let j = keys.index_of(p);
        assert(0 <= j < keys.len() && keys[j] == p);
        crate::keyset::lemma_difference(v.wants.peers[j].1.blocks, cids, c);
        crate::keyset::lemma_difference(v.wants.peers[j].1.haves, cids, c);
    }
}

struct PeerQueue {
    peer: PeerId,
    queue: MessageQueue,
    measured: bool,
    rtt: u64,
}

impl PeerQueue {
    spec fn view(&self) -> PeerView {
        PeerView { peer: self.peer, queue: self.queue@, measured: self.measured, rtt: self.rtt }
    }
}

/// The peer manager.
pub struct PeerManager {
    wants: PeerWantManager,
    queues: Vec<PeerQueue>,
    config: QueueConfig,
}

impl View for PeerManager {
    type V = PeerManagerView;

    closed spec fn view(&self) -> PeerManagerView {
        PeerManagerView {
            wants: self.wants@,
            peers: Seq::new(self.queues@.len(), |i: int| self.queues@[i].view()),
            config: self.config,
        }
    }
}

impl PeerManager {
    /// The state is in order; see [`PeerManagerView::wf`].
    pub open spec fn wf(&self) -> bool {
        self@.wf()
    }

    spec fn parts_wf(&self) -> bool {
        &&& self.wants.wf()
        &&& self.queues@.len() == self.wants@.peers.len()
        &&& forall|i: int|
            0 <= i < self.queues@.len() ==> (#[trigger] self.queues@[i]).queue.wf() && self.queues@[i].peer
                == self.wants@.peers[i].0
    }

    proof fn lemma_parts(&self)
        ensures
            self.wf() <==> self.parts_wf(),
            self@.peers.len() == self.queues@.len(),
    {
        if self.wf() {
            assert forall|i: int| 0 <= i < self.queues@.len() implies (
            #[trigger] self.queues@[i]).queue.wf() && self.queues@[i].peer
                == self.wants@.peers[i].0 by {
                assert(self@.peers[i].queue == self.queues@[i].queue@);
            }
        }
        if self.parts_wf() {
            assert forall|i: int| 0 <= i < self@.peers.len() implies (
            #[trigger] self@.peers[i]).queue.wf() && self@.peers[i].peer
                == self@.wants.peers[i].0 by {
                assert(self.queues@[i].queue.wf());
            }
        }
    }

    /// A peer manager without peers, whose queues get the settings `config`.
    pub fn new(config: QueueConfig) -> (m: Self)
        ensures
            m.wf(),
            m@ == no_peers(config),
    {
        let m = PeerManager { wants: PeerWantManager::new(), queues: Vec::new(), config };
        proof {
            assert(m@.peers =~= Seq::<PeerView>::empty());
            m.lemma_parts();
        }
        m
    }

    fn position(&self, peer: &PeerId) -> (r: Option<usize>)
        requires
            self.wf(),
        ensures
            match r {
                Some(i) => self@.index_of(*peer) == Some(i as int) && i < self@.peers.len(),
                None => self@.index_of(*peer) is None,
            },
    {
        proof {
            self.lemma_parts();
        }
        let ghost ks = keys_of(self.wants@.peers);
        let mut i: usize = 0;
        while i < self.queues.len()
            invariant
                self.parts_wf(),
                ks == keys_of(self.wants@.peers),
                ks.no_duplicates(),
                i <= self.queues@.len(),
                forall|j: int| 0 <= j < i ==> ks[j] != *peer,
            decreases self.queues@.len() - i,
        {
            if self.queues[i].peer.same(peer) {
                proof {
                    assert(ks[i as int] == *peer);
                    let p = ks.index_of(*peer);
                    assert(0 <= p < ks.len() && ks[p] == *peer);
                }
                return Some(i);
            }
            assert(ks[i as int] == self.wants@.peers[i as int].0);
            i += 1;
        }
        None
    }

    /// Whether `peer` is connected.
    pub fn is_connected(&self, peer: &PeerId) -> (b: bool)
        requires
            self.wf(),
        ensures
            b == self@.is_connected(*peer),
    {
        self.position(peer).is_some()
    }

    /// The connected peers, in the order in which they connected.
    pub fn peers(&self) -> (v: Vec<PeerId>)
        ensures
            v@ == keys_of(self@.wants.peers),
    {
        self.wants.peers()
    }

    /// Takes note at time `now` that `peer` has connected, and queues for it
    /// the want-haves that go to every peer. A peer that is connected already
    /// is left as it is.
    pub fn connected(&mut self, peer: &PeerId, priority: i32, now: u64)
        requires
            old(self).wf(),
        ensures
            final(self)@ == old(self)@.connected(*peer, priority, now),
            final(self).wf(),
    {
        proof {
            self.lemma_parts();
        }
        let ghost before = self@;
        if self.position(peer).is_some() {
            return ;
        }
        let haves = self.wants.add_peer(*peer);
        let mut queue = MessageQueue::new(self.config, now);
        queue.add_broadcast_want_haves(&haves, priority, now);
        self.queues.push(PeerQueue { peer: *peer, queue, measured: false, rtt: 0 });
        proof {
            assert(self@.peers =~= before.connected(*peer, priority, now).peers);
            self.lemma_parts();
        }
    }

    /// Hands the want-haves of `batches` to the queues, batch `i` to queue
    /// `i`.
    fn queue_haves(&mut self, batches: &Vec<Batch>, priority: i32, now: u64)
        requires
            old(self).queues@.len() == batches@.len(),
            forall|i: int| 0 <= i < old(self).queues@.len() ==> (#[trigger] old(self).queues@[i]).queue.wf(),
        ensures
            final(self).wants == old(self).wants,
            final(self).config == old(self).config,
            final(self).queues@.len() == old(self).queues@.len(),
            forall|i: int|
                0 <= i < old(self).queues@.len() ==> (#[trigger] final(self).queues@[i]).view() == (PeerView {
                    queue: old(self).queues@[i].queue@.add_wants(
                        Seq::empty(),
                        batches@[i].cids@,
                        priority,
                        false,
                        now,
                    ),
                    ..old(self).queues@[i].view()
                }) && final(self).queues@[i].queue.wf(),
    {
        let mut i: usize = 0;
        while i < self.queues.len()
            invariant
                i <= self.queues@.len(),
                self.queues@.len() == old(self).queues@.len(),
                self.queues@.len() == batches@.len(),
                self.wants == old(self).wants,
                self.config == old(self).config,
                forall|j: int| i <= j < self.queues@.len() ==> (#[trigger] self.queues@[j]) == old(self).queues@[j],
                forall|j: int| 0 <= j < old(self).queues@.len() ==> (#[trigger] old(self).queues@[j]).queue.wf(),
                forall|j: int|
                    0 <= j < i ==> (#[trigger] self.queues@[j]).view() == (PeerView {
                        queue: old(self).queues@[j].queue@.add_wants(
                            Seq::empty(),
                            batches@[j].cids@,
                            priority,
                            false,
                            now,
                        ),
                        ..old(self).queues@[j].view()
                    }) && self.queues@[j].queue.wf(),
            decreases self.queues@.len() - i,
        {
            assert(self.queues@[i as int] == old(self).queues@[i as int]);
            self.queues[i].queue.add_broadcast_want_haves(&batches[i].cids, priority, now);
            i += 1;
        }
    }

    /// Asks every connected peer, and every peer that connects later,
    /// whether it has `cids`. A peer is asked only about the blocks of which
    /// it was told nothing yet.
    pub fn broadcast_want_haves(&mut self, cids: &Vec<Cid>, priority: i32, now: u64)
        requires
            old(self).wf(),
        ensures
            final(self)@ == old(self)@.broadcast_want_haves(cids@, priority, now),
            final(self).wf(),
    {
        proof {
            self.lemma_parts();
        }
        let ghost before = self@;
        let batches = self.wants.broadcast_want_haves(cids);
        self.queue_haves(&batches, priority, now);
        proof {
            assert(self@.peers =~= before.broadcast_want_haves(cids@, priority, now).peers);
            assert(keys_of(self.wants@.peers) =~= keys_of(before.wants.peers));
            self.lemma_parts();
        }
    }

    /// Asks `peer` to send `want_blocks` and to say whether it has
    /// `want_haves`. Only what the peer was not asked before is queued; a
    /// block of which the peer was asked whether it has it can still be asked
    /// for. Nothing happens for a peer that is not connected.
    pub fn send_wants(
        &mut self,
        peer: &PeerId,
        want_blocks: &Vec<Cid>,
        want_haves: &Vec<Cid>,
        priority: i32,
        now: u64,
    )
        requires
            old(self).wf(),
        ensures
            final(self)@ == old(self)@.send_wants(*peer, want_blocks@, want_haves@, priority, now),
            final(self).wf(),
    {
        proof {
            self.lemma_parts();
        }
        let ghost before = self@;
        match self.position(peer) {
            None => {},
            Some(i) => {
                let out = self.wants.send_wants(peer, want_blocks, want_haves);
                self.queues[i].queue.add_wants(&out.0, &out.1, priority, now);
                proof {
                    crate::keymap::lemma_lookup_at(before.wants.peers, i as int);
                    let after = before.send_wants(*peer, want_blocks@, want_haves@, priority, now);
                    assert(self@.peers =~= after.peers);
                    assert(self@.wants.peers =~= after.wants.peers);
                    assert(keys_of(self.wants@.peers) =~= keys_of(before.wants.peers));
                    self.lemma_parts();
                }
            },
        }
    }

    /// Takes back the wants for `cids` from every peer. A cancel is queued
    /// only for a peer that was told of the block.
    pub fn send_cancels(&mut self, cids: &Vec<Cid>, now: u64)
        requires
            old(self).wf(),
        ensures
            final(self)@ == old(self)@.send_cancels(cids@, now),
            final(self).wf(),
    {
        proof {
            self.lemma_parts();
        }
        let ghost before = self@;
        let batches = self.wants.send_cancels(cids);
        let mut i: usize = 0;
        while i < self.queues.len()
            invariant
                i <= self.queues@.len(),
                self.queues@.len() == before.peers.len(),
                self.queues@.len() == batches@.len(),
                self.wants@ == before.send_cancels(cids@, now).wants,
                self.wants.wf(),
                self.config == before.config,
                forall|j: int|
                    0 <= j < batches@.len() ==> (#[trigger] batches@[j]).cids@ == cancels_to_send(
                        before.wants.peers[j].1,
                        cids@,
                    ),
                forall|j: int|
                    i <= j < self.queues@.len() ==> (#[trigger] self.queues@[j]).view() == before.peers[j]
                        && self.queues@[j].queue.wf(),
                forall|j: int|
                    0 <= j < i ==> (#[trigger] self.queues@[j]).view() == (PeerView {
                        queue: before.peers[j].queue.add_cancels(batches@[j].cids@, now),
                        ..before.peers[j]
                    }) && self.queues@[j].queue.wf(),
            decreases self.queues@.len() - i,
        {
            self.queues[i].queue.add_cancels(&batches[i].cids, now);
            i += 1;
        }
        proof {
            assert(self@.peers =~= before.send_cancels(cids@, now).peers);
            assert(keys_of(self.wants@.peers) =~= keys_of(before.wants.peers));
            self.lemma_parts();
        }
    }

    /// Takes note at time `now` that `peer` has disconnected. Its queue is
    /// stopped and dropped, and every remaining peer is asked about the
    /// blocks of which the lost peer had been told, as far as the remaining
    /// peer was told nothing of them.
    pub fn disconnected(&mut self, peer: &PeerId, priority: i32, now: u64)
        requires
            old(self).wf(),
        ensures
            final(self)@ == old(self)@.disconnected(*peer, priority, now),
            final(self).wf(),
    {
        proof {
            self.lemma_parts();
        }
        let ghost before = self@;
        match self.position(peer) {
            None => {},
            Some(i) => {
                proof {
                    crate::keymap::lemma_lookup_at(before.wants.peers, i as int);
                }
                let mut gone = self.queues.remove(i);
                gone.queue.stop();
                let batches = self.wants.remove_peer(peer);
                self.queue_haves(&batches, priority, now);
                proof {
                    let after = before.disconnected(*peer, priority, now);
                    assert(self@.peers =~= after.peers);
                    assert(self@.wants.peers =~= after.wants.peers);
                    self.lemma_parts();
                }
            },
        }
    }
    /// Asks for the next message to `peer` at time `now`; see
    /// [`MessageQueue::poll`]. There is none for a peer that is not
    /// connected.
    pub fn poll(&mut self, peer: &PeerId, now: u64) -> (message: Option<Vec<Entry>>)
        requires
            old(self).wf(),
        ensures
            final(self)@ == old(self)@.poll(*peer, now),
            match message {
                Some(m) => old(self)@.next_message(*peer, now) == Some(m@),
                None => old(self)@.next_message(*peer, now) is None,
            },
            final(self).wf(),
    {
        proof {
            self.lemma_parts();
        }
        let ghost before = self@;
        match self.position(peer) {
            None => None,
            Some(i) => {
                let m = self.queues[i].queue.poll(now);
                proof {
                    assert(self@.peers =~= before.poll(*peer, now).peers);
                    self.lemma_parts();
                }
                m
            },
        }
    }

    /// Tells the manager at time `now` how the sending of the last message
    /// to `peer` ended; see [`MessageQueue::send_complete`]. A peer that
    /// counts as out of reach after this failure is disconnected.
    pub fn send_complete(&mut self, peer: &PeerId, ok: bool, priority: i32, now: u64) -> (outcome:
        SendOutcome)
        requires
            old(self).wf(),
        ensures
            outcome == old(self)@.outcome(*peer, ok),
            final(self)@ == old(self)@.send_complete(*peer, ok, priority, now),
            final(self).wf(),
    {
        proof {
            self.lemma_parts();
        }
        let ghost before = self@;
        match self.position(peer) {
            None => SendOutcome::Ignored,
            Some(i) => {
                let would = Self::outcome_of(&self.queues[i].queue, ok);
                match would {
                    SendOutcome::Unreachable => {
                        self.disconnected(peer, priority, now);
                    },
                    _ => {
                        self.queues[i].queue.send_complete(ok, now);
                        proof {
                            assert(self@.peers =~= before.send_complete(
                                *peer,
                                ok,
                                priority,
                                now,
                            ).peers);
                            self.lemma_parts();
                        }
                    },
                }
                would
            },
        }
    }

    /// How the sending that is under way would end for `queue`.
    fn outcome_of(queue: &MessageQueue, ok: bool) -> (outcome: SendOutcome)
        ensures
            outcome == queue@.outcome(ok),
    {
        queue.outcome(ok)
    }

    /// Takes note at time `now` that `peer` answered for `cids`. Where one of
    /// them was still awaited, the time since it went out is taken as a
    /// round trip: it is returned, smoothed into the peer's round-trip time,
    /// and the time the peer is given to answer is set from that.
    pub fn response_received(&mut self, peer: &PeerId, cids: &Vec<Cid>, now: u64) -> (latency:
        Option<u64>)
        requires
            old(self).wf(),
        ensures
            latency == old(self)@.latency(*peer, cids@, now),
            final(self)@ == old(self)@.response_received(*peer, cids@, now),
            final(self).wf(),
    {
        proof {
            self.lemma_parts();
        }
        let ghost before = self@;
        match self.position(peer) {
            None => None,
            Some(i) => {
                let sample = Self::measure(&self.queues[i].queue, cids, now);
                self.queues[i].queue.response_received(cids);
                match sample {
                    None => {},
                    Some(sample) => {
                        let rtt = if self.queues[i].measured {
                            ewma_update(self.queues[i].rtt, sample)
                        } else {
                            sample
                        };
                        self.queues[i].measured = true;
                        self.queues[i].rtt = rtt;
                        self.queues[i].queue.set_response_timeout(response_timeout(rtt));
                    },
                }
                proof {
                    assert(self@.peers =~= before.response_received(*peer, cids@, now).peers);
                    self.lemma_parts();
                }
                sample
            },
        }
    }

    /// The round trip that an answer for `cids` at time `now` gives.
    fn measure(queue: &MessageQueue, cids: &Vec<Cid>, now: u64) -> (r: Option<u64>)
        requires
            queue.wf(),
        ensures
            r == measured_latency(queue@, cids@, now),
    {
        let ghost a = queue@.awaiting;
        let mut i: usize = 0;
        proof {
            assert(cids@.subrange(0, cids@.len() as int) =~= cids@);
        }
        while i < cids.len()
            invariant
                queue.wf(),
                a == queue@.awaiting,
                i <= cids@.len(),
                first_awaited(a, cids@) == first_awaited(
                    a,
                    cids@.subrange(i as int, cids@.len() as int),
                ),
            decreases cids@.len() - i,
        {
            let ghost t = cids@.subrange(i as int, cids@.len() as int);
            assert(t[0] == cids@[i as int]);
            assert(t.drop_first() =~= cids@.subrange(i + 1, cids@.len() as int));
            match queue.sent_at(&cids[i]) {
                Some(at) => {
                    return if now >= at {
                        Some(now - at)
                    } else {
                        None
                    };
                },
                None => {},
            }
            i += 1;
        }
        None
    }

    /// The smoothed round-trip time of `peer`, if one was measured.
    pub fn rtt(&self, peer: &PeerId) -> (r: Option<u64>)
        requires
            self.wf(),
        ensures
            r == match self@.index_of(*peer) {
                Some(i) => if self@.peers[i].measured {
                    Some(self@.peers[i].rtt)
                } else {
                    None
                },
                None => None,
            },
    {
        proof {
            self.lemma_parts();
        }
        match self.position(peer) {
            None => None,
            Some(i) => {
                assert(self@.peers[i as int] == self.queues@[i as int].view());
                if self.queues[i].measured {
                    Some(self.queues[i].rtt)
                } else {
                    None
                }
            },
        }
    }

    /// Takes out the wants of `peer` that were not answered in time at
    /// `now`, and returns them; see [`MessageQueue::check_timeouts`].
    pub fn check_timeouts(&mut self, peer: &PeerId, now: u64) -> (late: Vec<Cid>)
        requires
            old(self).wf(),
        ensures
            late@ == old(self)@.expired(*peer, now),
            final(self)@ == old(self)@.expire(*peer, now),
            final(self).wf(),
    {
        proof {
            self.lemma_parts();
        }
        let ghost before = self@;
        match self.position(peer) {
            None => Vec::new(),
            Some(i) => {
                let late = self.queues[i].queue.check_timeouts(now);
                proof {
                    assert(self@.peers =~= before.expire(*peer, now).peers);
                    self.lemma_parts();
                }
                late
            },
        }
    }

    /// Looks at time `now` whether the open wants of `peer` are due to be
    /// sent again; see [`MessageQueue::rebroadcast`].
    pub fn rebroadcast(&mut self, peer: &PeerId, now: u64)
        requires
            old(self).wf(),
        ensures
            final(self)@ == old(self)@.rebroadcast(*peer, now),
            final(self).wf(),
    {
        proof {
            self.lemma_parts();
        }
        let ghost before = self@;
        match self.position(peer) {
            None => {},
            Some(i) => {
                self.queues[i].queue.rebroadcast(now);
                proof {
                    assert(self@.peers =~= before.rebroadcast(*peer, now).peers);
                    self.lemma_parts();
                }
            },
        }
    }

    /// Asks every connected peer to send `cid`, as far as it was not asked
    /// to before.
    pub fn broadcast_want_block(&mut self, cid: Cid, priority: i32, now: u64)
        requires
            old(self).wf(),
        ensures
            final(self)@ == old(self)@.broadcast_want_block(cid, priority, now),
            final(self).wf(),
    {
        let ghost before = self@;
        let peers = self.peers();
        let mut blocks: Vec<Cid> = Vec::new();
        blocks.push(cid);
        assert(blocks@ =~= seq![cid]);
        let none: Vec<Cid> = Vec::new();
        let mut i: usize = 0;
        while i < peers.len()
            invariant
                i <= peers@.len(),
                blocks@ == seq![cid],
                none@ == Seq::<Cid>::empty(),
                self.wf(),
                self@ == before.want_block_from(peers@.subrange(0, i as int), cid, priority, now),
            decreases peers@.len() - i,
        {
            assert(peers@.subrange(0, i + 1).drop_last() =~= peers@.subrange(0, i as int));
            self.send_wants(&peers[i], &blocks, &none, priority, now);
            i += 1;
        }
        assert(peers@.subrange(0, peers@.len() as int) =~= peers@);
    }

    /// How the sending to `peer` that is under way would end; see
    /// [`PeerManager::send_complete`].
    pub fn outcome(&self, peer: &PeerId, ok: bool) -> (outcome: SendOutcome)
        requires
            self.wf(),
        ensures
            outcome == self@.outcome(*peer, ok),
    {
        proof {
            self.lemma_parts();
        }
        match self.position(peer) {
            None => SendOutcome::Ignored,
            Some(i) => {
                assert(self@.peers[i as int].queue == self.queues@[i as int].queue@);
                self.queues[i].queue.outcome(ok)
            },
        }
    }

    /// Stops every queue: nothing is sent to any peer any more.
    pub fn stop(&mut self)
        requires
            old(self).wf(),
        ensures
            final(self)@ == old(self)@.stop(),
            final(self).wf(),
    {
        proof {
            self.lemma_parts();
        }
        let ghost before = self@;
        let mut i: usize = 0;
        while i < self.queues.len()
            invariant
                i <= self.queues@.len(),
                self.queues@.len() == before.peers.len(),
                self.wants == old(self).wants,
                self.config == old(self).config,
                forall|j: int|
                    i <= j < self.queues@.len() ==> (#[trigger] self.queues@[j]).view() == before.peers[j],
                forall|j: int|
                    0 <= j < i ==> (#[trigger] self.queues@[j]).view() == (PeerView {
                        queue: before.peers[j].queue.stop(),
                        ..before.peers[j]
                    }) && self.queues@[j].queue.wf(),
                forall|j: int| 0 <= j < self.queues@.len() ==> (#[trigger] self.queues@[j]).queue.wf(),
            decreases self.queues@.len() - i,
        {
            self.queues[i].queue.stop();
            i += 1;
        }
        proof {
            assert(self@.peers =~= before.stop().peers);
            self.lemma_parts();
        }
    }

    /// Takes note that `peer` has sent the blocks `cids`. Its wants for them
    /// are settled: nothing more is sent to it about them, not even a
    /// cancel.
    pub fn block_received(&mut self, peer: &PeerId, cids: &Vec<Cid>)
        requires
            old(self).wf(),
        ensures
            final(self)@ == old(self)@.block_received(*peer, cids@),
            final(self).wf(),
    {
        proof {
            self.lemma_parts();
        }
        let ghost before = self@;
        match self.position(peer) {
            None => {},
            Some(i) => {
                self.wants.forget(peer, cids);
                self.queues[i].queue.resolve(cids);
                proof {
                    crate::keymap::lemma_lookup_at(before.wants.peers, i as int);
                    let after = before.block_received(*peer, cids@);
                    assert(self@.peers =~= after.peers);
                    assert(self@.wants.peers =~= after.wants.peers);
                    assert(keys_of(self.wants@.peers) =~= keys_of(before.wants.peers));
                    self.lemma_parts();
                }
            },
        }
    }

    /// Everything that is wanted of any peer: want-blocks, want-haves and
    /// the blocks asked of every peer.
    pub fn current_wants(&self) -> (s: AHashSet<Cid>)
        requires
            self.wf(),
        ensures
            cid_set_contents(s) == union(
                union(self@.wants.broadcast, all_blocks(self@.wants.peers)),
                all_haves(self@.wants.peers),
            ).to_set(),
    {
        proof {
            self.lemma_parts();
        }
        let v = self.wants.current_wants();
        cid_set_from(&v)
    }

    /// The blocks that some peer was asked to send.
    pub fn current_want_blocks(&self) -> (s: AHashSet<Cid>)
        requires
            self.wf(),
        ensures
            cid_set_contents(s) == all_blocks(self@.wants.peers).to_set(),
    {
        proof {
            self.lemma_parts();
        }
        let v = self.wants.current_want_blocks();
        cid_set_from(&v)
    }

    /// The blocks of which some peer was asked whether it has them.
    pub fn current_want_haves(&self) -> (s: AHashSet<Cid>)
        requires
            self.wf(),
        ensures
            cid_set_contents(s) == all_haves(self@.wants.peers).to_set(),
    {
        proof {
            self.lemma_parts();
        }
        let v = self.wants.current_want_haves();
        cid_set_from(&v)
    }
}

} // verus!
