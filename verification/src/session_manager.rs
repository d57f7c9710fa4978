//! The registry of sessions, and the way what comes in reaches them.

use crate::block_presence_manager::received;
use crate::ident::{Cid, PeerId};
use crate::keymap::without_entry;
use crate::message_queue::QueueConfig;
use crate::provider_query_manager::subscribers;
use crate::session::{Command, Session, SessionConfig, SessionView};
use crate::session_interest_manager::recorded;
use crate::shared::{Effect, Shared, SharedView};
use vstd::prelude::*;

verus! {

/// What happens to one session on an event: its next state and the commands
/// it gives, judged by its state and the shared parts.
pub type Handler = spec_fn(SessionView, SharedView) -> (SessionView, Seq<Command>);

/// The state of the session manager.
pub ghost struct ManagerView {
    /// The sessions, in the order in which they were made.
    pub sessions: Seq<SessionView>,
    /// The identifier that the next new session gets.
    pub next_id: u64,
    /// The parts that the sessions share.
    pub shared: SharedView,
    /// The priority that the next wants get. It falls with every event.
    pub priority: i32,
}

/// The identifiers of `sessions`, in order.
pub open spec fn ids_of(sessions: Seq<SessionView>) -> Seq<u64> {
    sessions.map_values(|s: SessionView| s.id)
}

/// The priority after `p`.
pub open spec fn lower(p: i32) -> i32 {
    if p == i32::MIN {
        p
    } else {
        (p - 1) as i32
    }
}

/// What the driver has to do for lookups that ended: for each, to stop it
/// and, where one waited, to start the lookup that takes its place.
pub open spec fn query_effects(changes: Seq<(Cid, Option<Cid>)>) -> Seq<Effect>
    decreases changes.len(),
{
    if changes.len() == 0 {
        Seq::empty()
    } else {
        let head = query_effects(changes.drop_last()).push(
            Effect::StopProviderQuery { cid: changes.last().0 },
        );
        match changes.last().1 {
            Some(next) => head.push(Effect::StartProviderQuery { cid: next }),
            None => head,
        }
    }
}

/// The handler of a message; see [`SessionView::receive_from`]. A session
/// that the message says nothing to is left alone.
pub open spec fn on_message(
    from: Option<PeerId>,
    blocks: Seq<Cid>,
    haves: Seq<Cid>,
    dont_haves: Seq<Cid>,
    latency: Option<u64>,
    now: u64,
) -> Handler {
    |s: SessionView, sh: SharedView|
        if s.relevant(blocks, haves, dont_haves) {
            (
                s.receive_from(from, blocks, haves, dont_haves, latency, now),
                s.receive_from_commands(from, blocks, haves, dont_haves, latency, now),
            )
        } else {
            (s, Seq::empty())
        }
}

/// The handler of the timers; see [`SessionView::tick`] and
/// [`SessionView::check_watchdogs`].
pub open spec fn on_tick(now: u64) -> Handler {
    |s: SessionView, sh: SharedView|
        (
            s.tick(sh.presences, now).check_watchdogs(now),
            s.tick_all_commands(sh.presences, now) + s.tick(sh.presences, now).watchdog_commands(
                now,
            ),
        )
}

/// The handler of a provider found for the sessions `waiting`; see
/// [`SessionView::add_discovered_peer`].
pub open spec fn on_provider(waiting: Seq<u64>, peer: PeerId) -> Handler {
    |s: SessionView, sh: SharedView|
        if waiting.contains(s.id) {
            (s.add_discovered_peer(peer), s.add_discovered_peer_commands(peer))
        } else {
            (s, Seq::empty())
        }
}

/// The handler of a peer's disconnecting; see
/// [`SessionView::peer_disconnected`].
pub open spec fn on_disconnect(peer: PeerId) -> Handler {
    |s: SessionView, sh: SharedView| (s.peer_disconnected(peer), Seq::empty())
}

impl ManagerView {
    /// Where the session `id` stands, if there is one.
    pub open spec fn index_of(self, id: u64) -> Option<int> {
        if ids_of(self.sessions).contains(id) {
            Some(ids_of(self.sessions).index_of(id))
        } else {
            None
        }
    }

    /// Whether there is a session `id`.
    pub open spec fn has_session(self, id: u64) -> bool {
        ids_of(self.sessions).contains(id)
    }

    /// The sessions are in order: no identifier occurs twice, none is
    /// stopped, and the next new session gets an identifier that none has.
    pub open spec fn sessions_wf(self) -> bool {
        &&& ids_of(self.sessions).no_duplicates()
        &&& forall|i: int|
            0 <= i < self.sessions.len() ==> (#[trigger] self.sessions[i]).wf() && !self.sessions[i].stopped
                && (self.sessions[i].id < self.next_id || self.next_id == u64::MAX)
    }

    /// The state is in order: the sessions are, and the shared parts are.
    pub open spec fn wf(self) -> bool {
        self.sessions_wf() && self.shared.wf()
    }

    /// The state of a manager without sessions, whose shared parts are
    /// new and get the settings `config` for the queues of peers.
    pub open spec fn initial(config: QueueConfig) -> ManagerView {
        ManagerView {
            sessions: Seq::empty(),
            next_id: 0,
            shared: SharedView::initial(config),
            priority: i32::MAX,
        }
    }

    /// The state, and what the driver has to do, after the first `k`
    /// sessions in turn have handled an event with `h` at time `now` and
    /// their commands were carried out.
    pub open spec fn run(self, k: int, h: Handler, now: u64) -> (ManagerView, Seq<Effect>)
        decreases k,
    {
        if k <= 0 {
            (self, Seq::empty())
        } else {
            let (m, e) = self.run(k - 1, h, now);
            let s = m.sessions[k - 1];
            let (next, cmds) = h(s, m.shared);
            (
                ManagerView {
                    sessions: m.sessions.update(k - 1, next),
                    shared: m.shared.apply_all(s.id, cmds, m.priority, now),
                    ..m
                },
                e + m.shared.effects_all(s.id, cmds, m.priority, now),
            )
        }
    }

    /// The state after every session has handled the event.
    pub open spec fn run_all(self, h: Handler, now: u64) -> ManagerView {
        self.run(self.sessions.len() as int, h, now).0
    }

    /// What the driver has to do after every session has handled the
    /// event.
    pub open spec fn run_effects(self, h: Handler, now: u64) -> Seq<Effect> {
        self.run(self.sessions.len() as int, h, now).1
    }

    /// The state with the next lower priority.
    pub open spec fn step(self) -> ManagerView {
        ManagerView { priority: lower(self.priority), ..self }
    }

    /// The state after a session with the settings `config` was made.
    pub open spec fn new_session(self, config: SessionConfig) -> ManagerView {
        ManagerView {
            sessions: self.sessions.push(fresh_session(self.next_id, config)),
            next_id: (self.next_id + 1) as u64,
            ..self
        }
    }

    /// The state after the session `id` was asked for: it is made with the
    /// settings `config` unless it is there.
    pub open spec fn get_or_create_session(self, id: u64, config: SessionConfig) -> ManagerView {
        if self.has_session(id) {
            self
        } else {
            ManagerView {
                sessions: self.sessions.push(fresh_session(id, config)),
                next_id: if id < self.next_id {
                    self.next_id
                } else if id == u64::MAX {
                    id
                } else {
                    (id + 1) as u64
                },
                ..self
            }
        }
    }

    /// The state after the callers of session `id` asked for `cids` at time
    /// `now`. Nothing happens where there is no such session.
    pub open spec fn want_blocks(self, id: u64, cids: Seq<Cid>, now: u64) -> ManagerView {
        match self.index_of(id) {
            None => self,
            Some(i) => {
                let s = self.sessions[i];
                let noted = SharedView { interest: recorded(self.shared.interest, id, cids), ..self.shared };
                ManagerView {
                    sessions: self.sessions.update(i, s.want_blocks(cids, now)),
                    shared: noted.apply_all(id, s.want_blocks_commands(cids), self.priority, now),
                    priority: lower(self.priority),
                    ..self
                }
            },
        }
    }

    /// What the driver has to do after that.
    pub open spec fn want_blocks_effects(self, id: u64, cids: Seq<Cid>, now: u64) -> Seq<Effect> {
        match self.index_of(id) {
            None => Seq::empty(),
            Some(i) => {
                let s = self.sessions[i];
                let noted = SharedView { interest: recorded(self.shared.interest, id, cids), ..self.shared };
                noted.effects_all(id, s.want_blocks_commands(cids), self.priority, now)
            },
        }
    }

    /// The state in which what `from` sent and said about its blocks is
    /// noted: its wants for the blocks it sent are settled.
    pub open spec fn noted(self, from: Option<PeerId>, blocks: Seq<Cid>, haves: Seq<Cid>, dont_haves: Seq<Cid>) -> ManagerView {
        match from {
            None => self,
            Some(peer) => ManagerView {
                shared: SharedView {
                    presences: received(
                        self.shared.presences,
                        self.shared.capacity,
                        peer,
                        haves,
                        dont_haves,
                    ),
                    peers: self.shared.peers.block_received(peer, blocks),
                    ..self.shared
                },
                ..self
            },
        }
    }

    /// The state after a message was routed to the sessions at time `now`.
    pub open spec fn receive_from(
        self,
        from: Option<PeerId>,
        blocks: Seq<Cid>,
        haves: Seq<Cid>,
        dont_haves: Seq<Cid>,
        latency: Option<u64>,
        now: u64,
    ) -> ManagerView {
        self.noted(from, blocks, haves, dont_haves).run_all(
            on_message(from, blocks, haves, dont_haves, latency, now),
            now,
        ).step()
    }

    /// What the driver has to do after that.
    pub open spec fn receive_from_effects(
        self,
        from: Option<PeerId>,
        blocks: Seq<Cid>,
        haves: Seq<Cid>,
        dont_haves: Seq<Cid>,
        latency: Option<u64>,
        now: u64,
    ) -> Seq<Effect> {
        self.noted(from, blocks, haves, dont_haves).run_effects(
            on_message(from, blocks, haves, dont_haves, latency, now),
            now,
        )
    }

    /// The state after a lookup found `peer` as a provider of `cid`.
    pub open spec fn provider_found(self, cid: Cid, peer: PeerId, now: u64) -> ManagerView {
        self.run_all(on_provider(subscribers(self.shared.queries.subs, cid), peer), now).step()
    }

    /// What the driver has to do after that.
    pub open spec fn provider_found_effects(self, cid: Cid, peer: PeerId, now: u64) -> Seq<Effect> {
        self.run_effects(on_provider(subscribers(self.shared.queries.subs, cid), peer), now)
    }

    /// The state after `peer` connected at time `now`.
    pub open spec fn peer_connected(self, peer: PeerId, now: u64) -> ManagerView {
        self.with_peers(self.shared.peers.connected(peer, self.priority, now)).step()
    }

    /// The state after the lookup of providers of `cid` ended at time
    /// `now`.
    pub open spec fn provider_query_finished(self, cid: Cid, now: u64) -> ManagerView {
        ManagerView {
            shared: SharedView { queries: self.shared.queries.query_finished(cid, now), ..self.shared },
            ..self
        }
    }

    /// The block of the lookup that starts in place of the lookup of
    /// providers of `cid` when that ends, if one waits.
    pub open spec fn next_query(self, cid: Cid) -> Option<Cid> {
        self.shared.queries.next_after(cid)
    }

    /// The state after every lookup that has run for the allowed time was
    /// ended at time `now`.
    pub open spec fn expire_queries(self, now: u64) -> ManagerView {
        ManagerView {
            shared: SharedView {
                queries: self.shared.queries.finish_all(self.shared.queries.overdue(now), now),
                ..self.shared
            },
            ..self
        }
    }

    /// What the driver has to do after that: to stop each lookup that
    /// ended, and to start the lookup that takes its place.
    pub open spec fn expire_queries_effects(self, now: u64) -> Seq<Effect> {
        query_effects(
            self.shared.queries.finish_all_changes(self.shared.queries.overdue(now), now),
        )
    }

    /// The state after `peer` disconnected at time `now`.
    pub open spec fn peer_disconnected(self, peer: PeerId, now: u64) -> ManagerView {
        (ManagerView {
            shared: SharedView {
                peers: self.shared.peers.disconnected(peer, self.priority, now),
                presences: without_entry(self.shared.presences, peer),
                ..self.shared
            },
            ..self
        }).run_all(on_disconnect(peer), now).step()
    }

    /// The state after the sending to `peer` ended at time `now`. A peer
    /// that is out of reach after this is treated as disconnected.
    pub open spec fn send_complete(self, peer: PeerId, ok: bool, now: u64) -> ManagerView {
        if self.shared.peers.outcome(peer, ok) is Unreachable {
            self.peer_disconnected(peer, now)
        } else {
            ManagerView {
                shared: SharedView {
                    peers: self.shared.peers.send_complete(peer, ok, self.priority, now),
                    ..self.shared
                },
                ..self
            }
        }
    }

    /// The state with the peer manager in the state `peers`.
    pub open spec fn with_peers(self, peers: crate::peer_manager::PeerManagerView) -> ManagerView {
        ManagerView { shared: SharedView { peers, ..self.shared }, ..self }
    }

    /// The state after the wants of `peer` that were not answered in time
    /// were taken out at time `now`. Where `simulate` is set, the peer is
    /// taken to have said that it lacks those blocks.
    pub open spec fn check_timeouts(self, peer: PeerId, simulate: bool, now: u64) -> ManagerView {
        let late = self.shared.peers.expired(peer, now);
        let m = self.with_peers(self.shared.peers.expire(peer, now));
        if simulate && late.len() > 0 {
            m.receive_from(Some(peer), Seq::empty(), Seq::empty(), late, None, now)
        } else {
            m
        }
    }

    /// What the driver has to do after that.
    pub open spec fn check_timeouts_effects(self, peer: PeerId, simulate: bool, now: u64) -> Seq<
        Effect,
    > {
        let late = self.shared.peers.expired(peer, now);
        let m = self.with_peers(self.shared.peers.expire(peer, now));
        if simulate && late.len() > 0 {
            m.receive_from_effects(Some(peer), Seq::empty(), Seq::empty(), late, None, now)
        } else {
            Seq::empty()
        }
    }

    /// The state after every session was stopped in turn at time `now`.
    pub open spec fn stop_sessions(self, now: u64) -> ManagerView
        decreases self.sessions.len(),
    {
        if self.sessions.len() == 0 {
            self
        } else {
            let next = self.stop_session(self.sessions[0].id, now);
            if next.sessions.len() < self.sessions.len() {
                next.stop_sessions(now)
            } else {
                next
            }
        }
    }

    /// What the driver has to do after that.
    pub open spec fn stop_sessions_effects(self, now: u64) -> Seq<Effect>
        decreases self.sessions.len(),
    {
        if self.sessions.len() == 0 {
            Seq::empty()
        } else {
            let next = self.stop_session(self.sessions[0].id, now);
            let head = self.stop_session_effects(self.sessions[0].id, now);
            if next.sessions.len() < self.sessions.len() {
                head + next.stop_sessions_effects(now)
            } else {
                head
            }
        }
    }

    /// The state after the callers of session `id` gave up waiting for
    /// `cids` at time `now`. Nothing happens where there is no such
    /// session.
    pub open spec fn cancel_wants(self, id: u64, cids: Seq<Cid>, now: u64) -> ManagerView {
        match self.index_of(id) {
            None => self,
            Some(i) => {
                let s = self.sessions[i];
                ManagerView {
                    sessions: self.sessions.update(i, s.cancel_wants(cids)),
                    shared: self.shared.apply_all(
                        id,
                        s.cancel_wants_commands(cids),
                        self.priority,
                        now,
                    ),
                    priority: lower(self.priority),
                    ..self
                }
            },
        }
    }

    /// What the driver has to do after that.
    pub open spec fn cancel_wants_effects(self, id: u64, cids: Seq<Cid>, now: u64) -> Seq<Effect> {
        match self.index_of(id) {
            None => Seq::empty(),
            Some(i) => self.shared.effects_all(
                id,
                self.sessions[i].cancel_wants_commands(cids),
                self.priority,
                now,
            ),
        }
    }

    /// The state after the session `id` was stopped at time `now`: its
    /// wants are released and it is gone.
    pub open spec fn stop_session(self, id: u64, now: u64) -> ManagerView {
        match self.index_of(id) {
            None => self,
            Some(i) => {
                let s = self.sessions[i];
                ManagerView {
                    sessions: self.sessions.remove(i),
                    shared: self.shared.apply_all(id, s.stop_commands(), self.priority, now),
                    priority: lower(self.priority),
                    ..self
                }
            },
        }
    }

    /// What the driver has to do after that.
    pub open spec fn stop_session_effects(self, id: u64, now: u64) -> Seq<Effect> {
        match self.index_of(id) {
            None => Seq::empty(),
            Some(i) => self.shared.effects_all(id, self.sessions[i].stop_commands(), self.priority, now),
        }
    }
}

/// Whether a handler leaves the identifier of every session as it is.
pub open spec fn keeps_ids(h: Handler) -> bool {
    forall|s: SessionView, sh: SharedView| (#[trigger] h(s, sh)).0.id == s.id
}

/// A pass over the sessions touches only the sessions it has reached: after
/// the first `k` sessions, the others are as they were, and none has come or
/// gone.
pub proof fn lemma_run_frame(m: ManagerView, k: int, h: Handler, now: u64)
    requires
        0 <= k <= m.sessions.len(),
    ensures
        m.run(k, h, now).0.sessions.len() == m.sessions.len(),
        m.run(k, h, now).0.next_id == m.next_id,
        m.run(k, h, now).0.priority == m.priority,
        forall|j: int| k <= j < m.sessions.len() ==> m.run(k, h, now).0.sessions[j] == m.sessions[j],
    decreases k,
{
    if k > 0 {
        lemma_run_frame(m, k - 1, h, now);
    }
}

/// What a session has become when the pass has gone over it, it stays for
/// the rest of the pass; and what the driver has to do only grows.
pub proof fn lemma_run_settled(m: ManagerView, j: int, k: int, h: Handler, now: u64)
    requires
        0 <= j < k <= m.sessions.len(),
    ensures
        m.run(k, h, now).0.sessions[j] == m.run(j + 1, h, now).0.sessions[j],
        m.run(j + 1, h, now).1.is_prefix_of(m.run(k, h, now).1),
    decreases k,
{
    if k > j + 1 {
        lemma_run_settled(m, j, k - 1, h, now);
        lemma_run_frame(m, k - 1, h, now);
        let (p, e) = m.run(k - 1, h, now);
        let s = p.sessions[k - 1];
        let (next, cmds) = h(s, p.shared);
        let more = p.shared.effects_all(s.id, cmds, p.priority, now);
        assert(e.is_prefix_of(e + more));
    }
}

/// A delivery comes from one session's handling of the event: if the
/// driver is to hand a block to the callers of a session, then the pass
/// went over a session with that identifier, and that session asked for
/// the delivery.
pub proof fn lemma_run_deliveries(m: ManagerView, k: int, h: Handler, now: u64, e: Effect) -> (j: int)
    requires
        0 <= k <= m.sessions.len(),
        m.run(k, h, now).1.contains(e),
        e is Deliver,
    ensures
        0 <= j < k,
        m.sessions[j].id == e->session,
        h(m.sessions[j], m.run(j, h, now).0.shared).1.contains(
            Command::Deliver { cid: e->Deliver_cid },
        ),
    decreases k,
{
    let (p, head) = m.run(k - 1, h, now);
    lemma_run_frame(m, k - 1, h, now);
    let s = p.sessions[k - 1];
    let (next, cmds) = h(s, p.shared);
    let more = p.shared.effects_all(s.id, cmds, p.priority, now);
    let all = head + more;
    let i = choose|i: int| 0 <= i < all.len() && all[i] == e;
    if i < head.len() {
        assert(head[i] == e);
        lemma_run_deliveries(m, k - 1, h, now, e)
    } else {
        assert(more[i - head.len()] == e);
        crate::shared::lemma_deliveries(p.shared, s.id, cmds, p.priority, now, e);
        k - 1
    }
}

/// Blocks go only to sessions that waited for them. When a message is
/// routed, every block that the driver is to hand to the callers of a
/// session is a block of that message, and the session is one that there
/// is and that waited for the block.
pub proof fn lemma_message_deliveries(
    m: ManagerView,
    from: Option<PeerId>,
    blocks: Seq<Cid>,
    haves: Seq<Cid>,
    dont_haves: Seq<Cid>,
    latency: Option<u64>,
    now: u64,
    e: Effect,
) -> (j: int)
    requires
        m.sessions_wf(),
        m.receive_from_effects(from, blocks, haves, dont_haves, latency, now).contains(e),
        e is Deliver,
    ensures
        0 <= j < m.sessions.len(),
        m.sessions[j].id == e->session,
        m.sessions[j].wanted.contains(e->Deliver_cid),
        blocks.contains(e->Deliver_cid),
{
    let start = m.noted(from, blocks, haves, dont_haves);
    let h = on_message(from, blocks, haves, dont_haves, latency, now);
    let j = lemma_run_deliveries(start, start.sessions.len() as int, h, now, e);
    let s = start.sessions[j];
    assert(s == m.sessions[j]);
    crate::session::lemma_deliveries(s, from, blocks, haves, dont_haves, latency, now, e->Deliver_cid);
    let cmds = h(s, start.run(j, h, now).0.shared).1;
    if !s.relevant(blocks, haves, dont_haves) {
        assert(cmds.len() == 0);
        let i = choose|i: int|
            0 <= i < cmds.len() && cmds[i] == (Command::Deliver { cid: e->Deliver_cid });
    }
    j
}

/// A block that is announced reaches every session that waits for it. When
/// blocks are routed, a session that waits for one of them has it handed to
/// its callers, and waits for it no longer.
pub proof fn lemma_wanted_block_is_delivered(
    m: ManagerView,
    from: Option<PeerId>,
    blocks: Seq<Cid>,
    haves: Seq<Cid>,
    dont_haves: Seq<Cid>,
    latency: Option<u64>,
    now: u64,
    j: int,
    cid: Cid,
)
    requires
        m.sessions_wf(),
        0 <= j < m.sessions.len(),
        m.sessions[j].wanted.contains(cid),
        blocks.contains(cid),
    ensures
        m.receive_from_effects(from, blocks, haves, dont_haves, latency, now).contains(
            Effect::Deliver { session: m.sessions[j].id, cid },
        ),
        m.receive_from(from, blocks, haves, dont_haves, latency, now).sessions.len()
            == m.sessions.len(),
        !m.receive_from(from, blocks, haves, dont_haves, latency, now).sessions[j].wanted.contains(cid),
        m.receive_from(from, blocks, haves, dont_haves, latency, now).sessions[j].id
            == m.sessions[j].id,
{
    let start = m.noted(from, blocks, haves, dont_haves);
    let h = on_message(from, blocks, haves, dont_haves, latency, now);
    let n = start.sessions.len() as int;
    lemma_run_frame(start, j, h, now);
    lemma_run_frame(start, n, h, now);
    lemma_run_settled(start, j, n, h, now);
    let (p, head) = start.run(j, h, now);
    let s = p.sessions[j];
    assert(s == m.sessions[j]);
    crate::session::lemma_deliveries(s, from, blocks, haves, dont_haves, latency, now, cid);
    crate::keyset::lemma_difference(s.wanted, blocks, cid);
    let got = s.arrived(blocks);
    assert(got.contains(cid));
    assert(got.len() > 0);
    assert(s.relevant(blocks, haves, dont_haves));
    let cmds = h(s, p.shared).1;
    let more = p.shared.effects_all(s.id, cmds, p.priority, now);
    crate::shared::lemma_delivered(p.shared, s.id, cmds, p.priority, now, cid);
    let want = Effect::Deliver { session: s.id, cid };
    let i = choose|i: int| 0 <= i < more.len() && more[i] == want;
    let step = start.run(j + 1, h, now).1;
    assert(step == head + more);
    assert(step[head.len() + i] == want);
    let all = start.run(n, h, now).1;
    assert(all[head.len() + i] == want);
}

/// After a session was stopped, nothing reaches its callers: when a message
/// is routed, no block is handed to the callers of a session that is not
/// there.
pub proof fn lemma_gone_session_gets_nothing(
    m: ManagerView,
    from: Option<PeerId>,
    blocks: Seq<Cid>,
    haves: Seq<Cid>,
    dont_haves: Seq<Cid>,
    latency: Option<u64>,
    now: u64,
    id: u64,
    cid: Cid,
)
    requires
        m.sessions_wf(),
        !m.has_session(id),
    ensures
        !m.receive_from_effects(from, blocks, haves, dont_haves, latency, now).contains(
            Effect::Deliver { session: id, cid },
        ),
{
    let e = Effect::Deliver { session: id, cid };
    if m.receive_from_effects(from, blocks, haves, dont_haves, latency, now).contains(e) {
        let j = lemma_message_deliveries(m, from, blocks, haves, dont_haves, latency, now, e);
        assert(ids_of(m.sessions)[j] == id);
    }
}

/// Only a message brings blocks to callers: on the timers, on a provider
/// found, on new wants and on the stop of a session the driver is given no
/// block to hand out.
pub proof fn lemma_only_messages_deliver(m: ManagerView, waiting: Seq<u64>, peer: PeerId, id: u64, cids: Seq<Cid>, now: u64, e: Effect)
    requires
        e is Deliver,
    ensures
        !m.run_effects(on_tick(now), now).contains(e),
        !m.run_effects(on_provider(waiting, peer), now).contains(e),
        !m.want_blocks_effects(id, cids, now).contains(e),
        !m.stop_session_effects(id, now).contains(e),
{
    let n = m.sessions.len() as int;
    let cid = e->Deliver_cid;
    if m.run_effects(on_tick(now), now).contains(e) {
        let h = on_tick(now);
        let j = lemma_run_deliveries(m, n, h, now, e);
        let s = m.sessions[j];
        let sh = m.run(j, h, now).0.shared;
        crate::session::lemma_only_messages_deliver(s, sh.presences, cids, peer, now, cid);
        crate::session::lemma_only_messages_deliver(
            s.tick(sh.presences, now),
            sh.presences,
            cids,
            peer,
            now,
            cid,
        );
        let a = s.tick_all_commands(sh.presences, now);
        let b = s.tick(sh.presences, now).watchdog_commands(now);
        let all = a + b;
        let i = choose|i: int| 0 <= i < all.len() && all[i] == (Command::Deliver { cid });
        if i < a.len() {
            assert(a[i] == all[i]);
        } else {
            assert(b[i - a.len()] == all[i]);
        }
    }
    if m.run_effects(on_provider(waiting, peer), now).contains(e) {
        let h = on_provider(waiting, peer);
        let j = lemma_run_deliveries(m, n, h, now, e);
        let s = m.sessions[j];
        crate::session::lemma_only_messages_deliver(s, m.shared.presences, cids, peer, now, cid);
        let c = h(s, m.run(j, h, now).0.shared).1;
        if !waiting.contains(s.id) {
            let i = choose|i: int| 0 <= i < c.len() && c[i] == (Command::Deliver { cid });
        }
    }
    match m.index_of(id) {
        None => {
            let w = m.want_blocks_effects(id, cids, now);
            if w.contains(e) {
                let i = choose|i: int| 0 <= i < w.len() && w[i] == e;
            }
            let t = m.stop_session_effects(id, now);
            if t.contains(e) {
                let i = choose|i: int| 0 <= i < t.len() && t[i] == e;
            }
        },
        Some(i) => {
            let s = m.sessions[i];
            crate::session::lemma_only_messages_deliver(s, m.shared.presences, cids, peer, now, cid);
            let noted = SharedView { interest: recorded(m.shared.interest, id, cids), ..m.shared };
            if m.want_blocks_effects(id, cids, now).contains(e) {
                crate::shared::lemma_deliveries(
                    noted,
                    id,
                    s.want_blocks_commands(cids),
                    m.priority,
                    now,
                    e,
                );
            }
            if m.stop_session_effects(id, now).contains(e) {
                crate::shared::lemma_deliveries(m.shared, id, s.stop_commands(), m.priority, now, e);
            }
        },
    }
}

/// A pass in which no session asks for anything leaves the shared parts as
/// they are and gives the driver nothing to do.
pub proof fn lemma_quiet_run(m: ManagerView, k: int, h: Handler, now: u64)
    requires
        0 <= k <= m.sessions.len(),
        forall|s: SessionView, sh: SharedView| (#[trigger] h(s, sh)).1.len() == 0,
    ensures
        m.run(k, h, now).0.shared == m.shared,
        m.run(k, h, now).1.len() == 0,
    decreases k,
{
    if k > 0 {
        lemma_quiet_run(m, k - 1, h, now);
        let p = m.run(k - 1, h, now).0;
        let s = p.sessions[k - 1];
        assert(h(s, p.shared).1.len() == 0);
    }
}

/// After a peer has disconnected, nothing is sent to it and the other peers
/// cover for it: in the state after the event the peer manager is as
/// [`crate::peer_manager::lemma_disconnected`] says, and what the peer had
/// said about its blocks is forgotten.
pub proof fn lemma_peer_disconnected(m: ManagerView, peer: PeerId, now: u64)
    ensures
        m.peer_disconnected(peer, now).shared.peers == m.shared.peers.disconnected(
            peer,
            m.priority,
            now,
        ),
        m.peer_disconnected(peer, now).shared.presences == without_entry(
            m.shared.presences,
            peer,
        ),
        m.peer_disconnected(peer, now).sessions.len() == m.sessions.len(),
{
    let start = ManagerView {
        shared: SharedView {
            peers: m.shared.peers.disconnected(peer, m.priority, now),
            presences: without_entry(m.shared.presences, peer),
            ..m.shared
        },
        ..m
    };
    lemma_quiet_run(start, start.sessions.len() as int, on_disconnect(peer), now);
    lemma_run_frame(start, start.sessions.len() as int, on_disconnect(peer), now);
}

/// Asking for a session twice is asking once.
pub proof fn lemma_get_or_create_is_idempotent(m: ManagerView, id: u64, config: SessionConfig, other: SessionConfig)
    ensures
        m.get_or_create_session(id, config).has_session(id),
        m.get_or_create_session(id, config).get_or_create_session(id, other)
            == m.get_or_create_session(id, config),
{
    if !m.has_session(id) {
        let after = m.get_or_create_session(id, config);
        assert(ids_of(after.sessions)[m.sessions.len() as int] == id);
    }
}

/// A single request leaves no session behind: a session that is made for
/// one request and stopped when the request ends is gone, and the other
/// sessions are as they were.
pub proof fn lemma_single_request(m: ManagerView, config: SessionConfig, keys: Seq<Cid>, now: u64, later: u64)
    requires
        m.sessions_wf(),
        m.next_id < u64::MAX,
    ensures
        !m.has_session(m.next_id),
        m.new_session(config).want_blocks(m.next_id, keys, now).has_session(m.next_id),
        m.new_session(config).want_blocks(m.next_id, keys, now).stop_session(
            m.next_id,
            later,
        ).sessions == m.sessions,
        !m.new_session(config).want_blocks(m.next_id, keys, now).stop_session(
            m.next_id,
            later,
        ).has_session(m.next_id),
{
    let id = m.next_id;
    let ids = ids_of(m.sessions);
    if ids.contains(id) {
        let j = choose|j: int| 0 <= j < ids.len() && ids[j] == id;
        assert(m.sessions[j].id == id);
    }
    let made = m.new_session(config);
    let made_ids = ids_of(made.sessions);
    let n = m.sessions.len() as int;
    assert(made_ids =~= ids.push(id));
    assert(made_ids[n] == id);
    let p = made_ids.index_of(id);
    assert(0 <= p < made_ids.len() && made_ids[p] == id);
    if p < n {
        assert(ids[p] == id);
        assert(ids.contains(id));
    }
    assert(p == n);
    let asked = made.want_blocks(id, keys, now);
    let asked_ids = ids_of(asked.sessions);
    assert(asked_ids =~= made_ids);
    let gone = asked.stop_session(id, later);
    assert(gone.sessions =~= m.sessions);
}

/// A pass over the sessions changes no bound; see
/// [`crate::shared::lemma_apply_keeps_bounds`].
pub proof fn lemma_run_keeps_bounds(m: ManagerView, k: int, h: Handler, now: u64)
    requires
        0 <= k <= m.sessions.len(),
    ensures
        m.run(k, h, now).0.shared.queries.max_active == m.shared.queries.max_active,
        m.run(k, h, now).0.shared.queries.timeout == m.shared.queries.timeout,
        m.run(k, h, now).0.shared.capacity == m.shared.capacity,
    decreases k,
{
    if k > 0 {
        lemma_run_keeps_bounds(m, k - 1, h, now);
        lemma_run_frame(m, k - 1, h, now);
        let p = m.run(k - 1, h, now).0;
        let s = p.sessions[k - 1];
        crate::shared::lemma_apply_keeps_bounds(p.shared, s.id, h(s, p.shared).1, p.priority, now);
    }
}

/// Whether no session waits for `cid`.
pub open spec fn wanted_by_nobody(m: ManagerView, cid: Cid) -> bool {
    forall|j: int| 0 <= j < m.sessions.len() ==> !(#[trigger] m.sessions[j]).wanted.contains(cid)
}

/// While a message is routed, nothing new is asked about a block for which
/// no session waits.
proof fn lemma_run_asks_nothing_new(
    m: ManagerView,
    k: int,
    from: Option<PeerId>,
    blocks: Seq<Cid>,
    haves: Seq<Cid>,
    dont_haves: Seq<Cid>,
    latency: Option<u64>,
    now: u64,
    p: PeerId,
    c: Cid,
)
    requires
        0 <= k <= m.sessions.len(),
        wanted_by_nobody(m, c),
    ensures
        crate::peer_want_manager::asked_nothing_new(
            m.shared.peers.wants,
            m.run(k, on_message(from, blocks, haves, dont_haves, latency, now), now).0.shared.peers.wants,
            p,
            c,
        ),
    decreases k,
{
    let h = on_message(from, blocks, haves, dont_haves, latency, now);
    if k > 0 {
        lemma_run_asks_nothing_new(m, k - 1, from, blocks, haves, dont_haves, latency, now, p, c);
        lemma_run_frame(m, k - 1, h, now);
        let mid = m.run(k - 1, h, now).0;
        let s = mid.sessions[k - 1];
        assert(s == m.sessions[k - 1]);
        let cmds = h(s, mid.shared).1;
        assert forall|i: int| 0 <= i < cmds.len() implies !crate::session::asks_about(
            #[trigger] cmds[i],
            c,
        ) by {
            if crate::session::asks_about(cmds[i], c) {
                crate::session::lemma_message_asks_only_about_wanted(
                    s,
                    from,
                    blocks,
                    haves,
                    dont_haves,
                    latency,
                    now,
                    i,
                    c,
                );
            }
        }
        crate::shared::lemma_apply_asks_nothing_new(mid.shared, s.id, cmds, mid.priority, now, p, c);
    }
}

/// A message about a block for which no session waits has nothing asked
/// about it: a have, a dont-have or the block itself, for a block that was
/// given up or never wanted, leads to no want. What a peer counts as told
/// of the block afterwards, if anything, is what it was told before.
pub proof fn lemma_unwanted_block_asks_nothing(
    m: ManagerView,
    from: Option<PeerId>,
    blocks: Seq<Cid>,
    haves: Seq<Cid>,
    dont_haves: Seq<Cid>,
    latency: Option<u64>,
    now: u64,
    p: PeerId,
    c: Cid,
)
    requires
        wanted_by_nobody(m, c),
    ensures
        crate::peer_want_manager::asked_nothing_new(
            m.shared.peers.wants,
            m.receive_from(from, blocks, haves, dont_haves, latency, now).shared.peers.wants,
            p,
            c,
        ),
{
    let start = m.noted(from, blocks, haves, dont_haves);
    match from {
        None => {},
        Some(peer) => {
            crate::peer_manager::lemma_others_untouched(
                m.shared.peers,
                peer,
                blocks,
                m.priority,
                now,
                p,
                c,
            );
        },
    }
    assert(wanted_by_nobody(start, c)) by {
        assert forall|j: int| 0 <= j < start.sessions.len() implies !(
        #[trigger] start.sessions[j]).wanted.contains(c) by {
            assert(start.sessions[j] == m.sessions[j]);
        }
    }
    lemma_run_asks_nothing_new(
        start,
        start.sessions.len() as int,
        from,
        blocks,
        haves,
        dont_haves,
        latency,
        now,
        p,
        c,
    );
}

/// Whether the session at place `j` is the only one that waits for `cid`,
/// by its own books and by the index of interests.
pub open spec fn sole_getter(m: ManagerView, j: int, cid: Cid) -> bool {
    &&& 0 <= j < m.sessions.len()
    &&& m.sessions[j].wanted.contains(cid)
    &&& !m.sessions[j].stopped
    &&& crate::session_interest_manager::sole_interest(m.shared.interest, m.sessions[j].id, cid)
    &&& forall|i: int|
        0 <= i < m.sessions.len() && i != j ==> !(#[trigger] m.sessions[i]).wanted.contains(cid)
}

/// A request that ends takes its wants back: when the only session that
/// waits for a block is stopped, no peer counts as told of the block
/// afterwards.
pub proof fn lemma_stop_takes_wants_back(m: ManagerView, j: int, now: u64, p: PeerId, cid: Cid)
    requires
        m.wf(),
        sole_getter(m, j, cid),
    ensures
        crate::peer_want_manager::told_peer(
            m.stop_session(m.sessions[j].id, now).shared.peers.wants,
            p,
            cid,
        ) is None,
{
    let s = m.sessions[j];
    let ids = ids_of(m.sessions);
    assert(ids[j] == s.id);
    let at = ids.index_of(s.id);
    assert(0 <= at < ids.len() && ids[at] == s.id);
    assert(at == j);
    let cmds = s.stop_commands();
    let k = choose|k: int| 0 <= k < s.wanted.len() && s.wanted[k] == cid;
    assert(cmds[k] == (Command::Release { cid }));
    crate::shared::lemma_release_takes_wants_back(m.shared, s.id, cmds, m.priority, now, p, cid);
}

/// While a message is routed to the sessions before the one that waits for
/// a block, the interest in the block stays as it is.
proof fn lemma_run_keeps_interest(
    m: ManagerView,
    k: int,
    j: int,
    from: Option<PeerId>,
    blocks: Seq<Cid>,
    haves: Seq<Cid>,
    dont_haves: Seq<Cid>,
    latency: Option<u64>,
    now: u64,
    cid: Cid,
)
    requires
        sole_getter(m, j, cid),
        0 <= k <= j,
    ensures
        crate::session_interest_manager::sole_interest(
            m.run(k, on_message(from, blocks, haves, dont_haves, latency, now), now).0.shared.interest,
            m.sessions[j].id,
            cid,
        ),
        crate::keymap::keys_of(
            m.run(k, on_message(from, blocks, haves, dont_haves, latency, now), now).0.shared.interest,
        ) == crate::keymap::keys_of(m.shared.interest),
    decreases k,
{
    let h = on_message(from, blocks, haves, dont_haves, latency, now);
    if k > 0 {
        lemma_run_keeps_interest(m, k - 1, j, from, blocks, haves, dont_haves, latency, now, cid);
        lemma_run_frame(m, k - 1, h, now);
        let mid = m.run(k - 1, h, now).0;
        let s = mid.sessions[k - 1];
        assert(s == m.sessions[k - 1]);
        let cmds = h(s, mid.shared).1;
        crate::session::lemma_releases(s, from, blocks, haves, dont_haves, latency, now, cid);
        if cmds.contains(Command::Release { cid }) {
            let i = choose|i: int| 0 <= i < cmds.len() && cmds[i] == (Command::Release { cid });
        }
        crate::shared::lemma_apply_keeps_interest(
            mid.shared,
            s.id,
            cmds,
            mid.priority,
            now,
            m.sessions[j].id,
            cid,
        );
    }
}

/// While a message that holds a block is routed, the wants for the block
/// are taken back once the only session that waits for it has had it.
proof fn lemma_run_takes_wants_back(
    m: ManagerView,
    k: int,
    j: int,
    from: Option<PeerId>,
    blocks: Seq<Cid>,
    haves: Seq<Cid>,
    dont_haves: Seq<Cid>,
    latency: Option<u64>,
    now: u64,
    p: PeerId,
    cid: Cid,
)
    requires
        crate::keymap::keys_of(m.shared.interest).no_duplicates(),
        sole_getter(m, j, cid),
        blocks.contains(cid),
        j < k <= m.sessions.len(),
    ensures
        crate::peer_want_manager::told_peer(
            m.run(k, on_message(from, blocks, haves, dont_haves, latency, now), now).0.shared.peers.wants,
            p,
            cid,
        ) is None,
    decreases k,
{
    let h = on_message(from, blocks, haves, dont_haves, latency, now);
    lemma_run_frame(m, k - 1, h, now);
    let mid = m.run(k - 1, h, now).0;
    let s = mid.sessions[k - 1];
    assert(s == m.sessions[k - 1]);
    let cmds = h(s, mid.shared).1;
    assert forall|i: int| 0 <= i < cmds.len() implies !crate::session::asks_about(
        #[trigger] cmds[i],
        cid,
    ) by {
        if crate::session::asks_about(cmds[i], cid) {
            crate::session::lemma_message_asks_only_about_wanted(
                s,
                from,
                blocks,
                haves,
                dont_haves,
                latency,
                now,
                i,
                cid,
            );
        }
    }
    if k - 1 == j {
        lemma_run_keeps_interest(m, j, j, from, blocks, haves, dont_haves, latency, now, cid);
        crate::session::lemma_releases(s, from, blocks, haves, dont_haves, latency, now, cid);
        crate::keyset::lemma_difference(s.wanted, blocks, cid);
        assert(s.arrived(blocks).contains(cid));
        assert(s.relevant(blocks, haves, dont_haves));
        crate::shared::lemma_release_takes_wants_back(
            mid.shared,
            s.id,
            cmds,
            mid.priority,
            now,
            p,
            cid,
        );
    } else {
        lemma_run_takes_wants_back(
            m,
            k - 1,
            j,
            from,
            blocks,
            haves,
            dont_haves,
            latency,
            now,
            p,
            cid,
        );
        crate::shared::lemma_apply_asks_nothing_new(mid.shared, s.id, cmds, mid.priority, now, p, cid);
    }
}

/// A block that has come is asked of nobody any more: when a message or an
/// announcement brings a block to the only session that waits for it, no
/// peer counts as told of the block afterwards, and no session waits for
/// it.
pub proof fn lemma_arrived_block_is_asked_of_nobody(
    m: ManagerView,
    j: int,
    from: Option<PeerId>,
    blocks: Seq<Cid>,
    haves: Seq<Cid>,
    dont_haves: Seq<Cid>,
    latency: Option<u64>,
    now: u64,
    p: PeerId,
    cid: Cid,
)
    requires
        m.wf(),
        sole_getter(m, j, cid),
        blocks.contains(cid),
    ensures
        crate::peer_want_manager::told_peer(
            m.receive_from(from, blocks, haves, dont_haves, latency, now).shared.peers.wants,
            p,
            cid,
        ) is None,
        !m.receive_from(from, blocks, haves, dont_haves, latency, now).sessions[j].wanted.contains(
            cid,
        ),
{
    let start = m.noted(from, blocks, haves, dont_haves);
    assert(sole_getter(start, j, cid)) by {
        assert forall|i: int| 0 <= i < start.sessions.len() && i != j implies !(
        #[trigger] start.sessions[i]).wanted.contains(cid) by {
            assert(start.sessions[i] == m.sessions[i]);
        }
    }
    lemma_run_takes_wants_back(
        start,
        start.sessions.len() as int,
        j,
        from,
        blocks,
        haves,
        dont_haves,
        latency,
        now,
        p,
        cid,
    );
    lemma_wanted_block_is_delivered(m, from, blocks, haves, dont_haves, latency, now, j, cid);
}

/// A session that is stopped is gone.
pub proof fn lemma_stopped_session_is_gone(m: ManagerView, j: int, now: u64)
    requires
        m.sessions_wf(),
        0 <= j < m.sessions.len(),
    ensures
        !m.stop_session(m.sessions[j].id, now).has_session(m.sessions[j].id),
        m.stop_session(m.sessions[j].id, now).sessions == m.sessions.remove(j),
{
    let id = m.sessions[j].id;
    let ids = ids_of(m.sessions);
    assert(ids[j] == id);
    let at = ids.index_of(id);
    assert(0 <= at < ids.len() && ids[at] == id);
    assert(at == j);
    let rest = ids_of(m.sessions.remove(j));
    assert(rest =~= ids.remove(j));
    if rest.contains(id) {
        let a = choose|a: int| 0 <= a < rest.len() && rest[a] == id;
        let aa = if a < j { a } else { a + 1 };
        assert(ids[aa] == ids[j]);
    }
}

/// A session that was just made.
pub open spec fn fresh_session(id: u64, config: SessionConfig) -> SessionView {
    SessionView {
        id,
        config,
        phase: crate::session::Phase::Discovery,
        stopped: false,
        wanted: Seq::empty(),
        live: Seq::empty(),
        peers: Seq::empty(),
        discovered: false,
        in_flight: Seq::empty(),
        declined: Seq::empty(),
        consecutive_ticks: 0,
        next_tick_at: 0,
        search_armed: false,
        search_at: 0,
        rebroadcast_at: 0,
    }
}

/// The session manager.
pub struct SessionManager {
    sessions: Vec<Session>,
    next_id: u64,
    shared: Shared,
    priority: i32,
}

impl View for SessionManager {
    type V = ManagerView;

    closed spec fn view(&self) -> ManagerView {
        ManagerView {
            sessions: Seq::new(self.sessions@.len(), |i: int| self.sessions@[i]@),
            next_id: self.next_id,
            shared: self.shared@,
            priority: self.priority,
        }
    }
}

impl SessionManager {
    /// The parts that the sessions share.
    pub closed spec fn shared(&self) -> &Shared {
        &self.shared
    }

    /// The state is in order: the shared parts are, and the sessions are;
    /// see [`ManagerView::sessions_wf`].
    pub open spec fn wf(&self) -> bool {
        self.shared().wf() && self@.sessions_wf() && self@.shared == self.shared()@
    }

    proof fn lemma_sessions(&self)
        requires
            self.wf(),
        ensures
            self@.sessions.len() == self.sessions@.len(),
            forall|i: int| 0 <= i < self.sessions@.len() ==> (#[trigger] self.sessions@[i]).wf(),
    {
        assert forall|i: int| 0 <= i < self.sessions@.len() implies (#[trigger] self.sessions@[i]).wf() by {
            assert(self@.sessions[i] == self.sessions@[i]@);
        }
    }

    /// A manager without sessions, whose peers' queues get the settings
    /// `config`.
    pub fn new(config: QueueConfig) -> (m: Self)
        ensures
            m.wf(),
            m@ == ManagerView::initial(config),
    {
        let m = SessionManager {
            sessions: Vec::new(),
            next_id: 0,
            shared: Shared::new(config),
            priority: i32::MAX,
        };
        assert(ids_of(m@.sessions) =~= Seq::<u64>::empty());
        assert(m@.sessions =~= Seq::<SessionView>::empty());
        m
    }

    /// Well-formedness of the manager is well-formedness of its view.
    pub proof fn lemma_wf(&self)
        requires
            self.wf(),
        ensures
            self@.wf(),
    {
    }

    fn position(&self, id: u64) -> (r: Option<usize>)
        requires
            self.wf(),
        ensures
            match r {
                Some(i) => self@.index_of(id) == Some(i as int) && i < self.sessions@.len()
                    && self@.sessions[i as int].id == id,
                None => self@.index_of(id) is None,
            },
    {
        let ghost ids = ids_of(self@.sessions);
        let mut i: usize = 0;
        while i < self.sessions.len()
            invariant
                self.wf(),
                ids == ids_of(self@.sessions),
                i <= self.sessions@.len(),
                forall|j: int| 0 <= j < i ==> ids[j] != id,
            decreases self.sessions@.len() - i,
        {
            if self.sessions[i].id() == id {
                proof {
                    assert(ids[i as int] == id);
                    let p = ids.index_of(id);
                    assert(0 <= p < ids.len() && ids[p] == id);
                }
                return Some(i);
            }
            assert(ids[i as int] == self@.sessions[i as int].id);
            i += 1;
        }
        None
    }

    /// Whether there is a session `id`.
    pub fn has_session(&self, id: u64) -> (b: bool)
        requires
            self.wf(),
        ensures
            b == self@.has_session(id),
    {
        self.position(id).is_some()
    }

    fn lower_priority(&mut self)
        ensures
            final(self)@ == old(self)@.step(),
            final(self).shared == old(self).shared,
            final(self).sessions == old(self).sessions,
    {
        if self.priority > i32::MIN {
            self.priority = self.priority - 1;
        }
    }

    /// Makes a session with the settings `config` and returns its
    /// identifier, which no other session has. The identifiers are given in
    /// rising order; there has to be one left.
    pub fn new_session(&mut self, config: SessionConfig) -> (id: u64)
        requires
            old(self).wf(),
            old(self)@.next_id < u64::MAX,
        ensures
            id == old(self)@.next_id,
            !old(self)@.has_session(id),
            final(self)@ == old(self)@.new_session(config),
            final(self).wf(),
    {
        let ghost before = self@;
        let id = self.next_id;
        proof {
            let ids = ids_of(before.sessions);
            if ids.contains(id) {
                let j = choose|j: int| 0 <= j < ids.len() && ids[j] == id;
                assert(before.sessions[j].id == id);
            }
        }
        self.sessions.push(Session::new(id, config));
        self.next_id = id + 1;
        proof {
            assert(self@.sessions =~= before.sessions.push(fresh_session(id, config)));
            let ids = ids_of(before.sessions);
            let after = ids_of(self@.sessions);
            assert(after =~= ids.push(id));
            assert forall|i: int, j: int|
                0 <= i < after.len() && 0 <= j < after.len() && i != j implies after[i]
                != after[j] by {
                if i < ids.len() && j < ids.len() {
                } else if i < ids.len() {
                    assert(ids.contains(ids[i]));
                } else {
                    assert(ids.contains(ids[j]));
                }
            }
            assert forall|i: int| 0 <= i < self@.sessions.len() implies (
            #[trigger] self@.sessions[i]).wf() && !self@.sessions[i].stopped && (self@.sessions[i].id
                < self@.next_id || self@.next_id == u64::MAX) by {
                if i < before.sessions.len() {
                    assert(self@.sessions[i] == before.sessions[i]);
                }
            }
        }
        id
    }

    /// Makes the session `id` with the settings `config` unless it is there.
    /// Asking twice is asking once.
    pub fn get_or_create_session(&mut self, id: u64, config: SessionConfig)
        requires
            old(self).wf(),
        ensures
            final(self)@ == old(self)@.get_or_create_session(id, config),
            final(self)@.has_session(id),
            final(self).wf(),
    {
        let ghost before = self@;
        if self.position(id).is_some() {
            return ;
        }
        self.sessions.push(Session::new(id, config));
        if id >= self.next_id {
            self.next_id = if id == u64::MAX {
                id
            } else {
                id + 1
            };
        }
        proof {
            assert(self@.sessions =~= before.sessions.push(fresh_session(id, config)));
            let ids = ids_of(before.sessions);
            let after = ids_of(self@.sessions);
            assert(after =~= ids.push(id));
            assert(after[ids.len() as int] == id);
            assert forall|i: int, j: int|
                0 <= i < after.len() && 0 <= j < after.len() && i != j implies after[i]
                != after[j] by {
                if i < ids.len() && j < ids.len() {
                } else if i < ids.len() {
                    assert(ids.contains(ids[i]));
                } else {
                    assert(ids.contains(ids[j]));
                }
            }
            assert forall|i: int| 0 <= i < self@.sessions.len() implies (
            #[trigger] self@.sessions[i]).wf() && !self@.sessions[i].stopped && (self@.sessions[i].id
                < self@.next_id || self@.next_id == u64::MAX) by {
                if i < before.sessions.len() {
                    assert(self@.sessions[i] == before.sessions[i]);
                }
            }
        }
    }

    /// Takes note at time `now` that the callers of session `id` wait for
    /// `cids`, and carries out what the session asks for. Returns what the
    /// driver has to do. Nothing happens where there is no such session.
    pub fn want_blocks(&mut self, id: u64, cids: &Vec<Cid>, now: u64) -> (effects: Vec<Effect>)
        requires
            old(self).wf(),
        ensures
            final(self)@ == old(self)@.want_blocks(id, cids@, now),
            effects@ == old(self)@.want_blocks_effects(id, cids@, now),
            final(self).wf(),
    {
        let ghost before = self@;
        let mut effects: Vec<Effect> = Vec::new();
        proof {
            self.lemma_sessions();
        }
        match self.position(id) {
            None => {},
            Some(i) => {
                self.shared.interest.record_session_interest(id, cids);
                let cmds = self.sessions[i].want_blocks(cids, now);
                self.shared.apply_all(id, &cmds, self.priority, now, &mut effects);
                self.lower_priority();
                proof {
                    let after = before.want_blocks(id, cids@, now);
                    assert(self@.sessions =~= after.sessions);
                    assert(ids_of(self@.sessions) =~= ids_of(before.sessions));
                    assert(Seq::<Effect>::empty() + before.want_blocks_effects(id, cids@, now)
                        =~= before.want_blocks_effects(id, cids@, now));
                    assert forall|j: int| 0 <= j < self@.sessions.len() implies (
                    #[trigger] self@.sessions[j]).wf() && !self@.sessions[j].stopped && (
                    self@.sessions[j].id < self@.next_id || self@.next_id == u64::MAX) by {
                        if j != i {
                            assert(self@.sessions[j] == before.sessions[j]);
                        } else {
                            assert(before.sessions[j].wf());
                        }
                    }
                }
            },
        }
        effects
    }

    /// Takes note at time `now` that the callers of session `id` no longer
    /// wait for `cids`. The blocks are released; a want is taken back from
    /// the peers only where no other session wants the block. Returns what
    /// the driver has to do.
    pub fn cancel_wants(&mut self, id: u64, cids: &Vec<Cid>, now: u64) -> (effects: Vec<Effect>)
        requires
            old(self).wf(),
        ensures
            final(self)@ == old(self)@.cancel_wants(id, cids@, now),
            effects@ == old(self)@.cancel_wants_effects(id, cids@, now),
            final(self).wf(),
    {
        let ghost before = self@;
        let mut effects: Vec<Effect> = Vec::new();
        proof {
            self.lemma_sessions();
        }
        match self.position(id) {
            None => {},
            Some(i) => {
                let cmds = self.sessions[i].cancel_wants(cids);
                self.shared.apply_all(id, &cmds, self.priority, now, &mut effects);
                self.lower_priority();
                proof {
                    let after = before.cancel_wants(id, cids@, now);
                    assert(self@.sessions =~= after.sessions);
                    assert(ids_of(self@.sessions) =~= ids_of(before.sessions));
                    assert(Seq::<Effect>::empty() + before.cancel_wants_effects(id, cids@, now)
                        =~= before.cancel_wants_effects(id, cids@, now));
                    assert forall|j: int| 0 <= j < self@.sessions.len() implies (
                    #[trigger] self@.sessions[j]).wf() && !self@.sessions[j].stopped && (
                    self@.sessions[j].id < self@.next_id || self@.next_id == u64::MAX) by {
                        if j != i {
                            assert(self@.sessions[j] == before.sessions[j]);
                        } else {
                            assert(before.sessions[j].wf());
                        }
                    }
                }
            },
        }
        effects
    }

    /// Stops the session `id` at time `now`: the blocks it wanted are
    /// released, and the session is gone. Returns what the driver has to
    /// do. From now on nothing is handed to the callers of the session.
    pub fn stop_session(&mut self, id: u64, now: u64) -> (effects: Vec<Effect>)
        requires
            old(self).wf(),
        ensures
            final(self)@ == old(self)@.stop_session(id, now),
            effects@ == old(self)@.stop_session_effects(id, now),
            !final(self)@.has_session(id),
            final(self).wf(),
    {
        let ghost before = self@;
        let mut effects: Vec<Effect> = Vec::new();
        proof {
            self.lemma_sessions();
        }
        match self.position(id) {
            None => {},
            Some(i) => {
                let mut session = self.sessions.remove(i);
                let cmds = session.stop();
                self.shared.apply_all(id, &cmds, self.priority, now, &mut effects);
                self.lower_priority();
                proof {
                    let after = before.stop_session(id, now);
                    assert(self@.sessions =~= after.sessions);
                    let ids = ids_of(before.sessions);
                    let rest = ids_of(self@.sessions);
                    assert(rest =~= ids.remove(i as int));
                    assert(Seq::<Effect>::empty() + before.stop_session_effects(id, now)
                        =~= before.stop_session_effects(id, now));
                    assert forall|a: int, b: int|
                        0 <= a < rest.len() && 0 <= b < rest.len() && a != b implies rest[a]
                        != rest[b] by {
                        let aa = if a < i { a } else { a + 1 };
                        let bb = if b < i { b } else { b + 1 };
                        assert(ids[aa] != ids[bb]);
                    }
                    if rest.contains(id) {
                        let a = choose|a: int| 0 <= a < rest.len() && rest[a] == id;
                        let aa = if a < i { a } else { a + 1 };
                        assert(ids[aa] == ids[i as int]);
                    }
                    assert forall|j: int| 0 <= j < self@.sessions.len() implies (
                    #[trigger] self@.sessions[j]).wf() && !self@.sessions[j].stopped && (
                    self@.sessions[j].id < self@.next_id || self@.next_id == u64::MAX) by {
                        let jj = if j < i { j } else { j + 1 };
                        assert(self@.sessions[j] == before.sessions[jj]);
                    }
                }
            },
        }
        effects
    }
    /// The facts that a pass over the sessions keeps: used by the loops
    /// below.
    spec fn pass_inv(&self, start: ManagerView, i: int, h: Handler, now: u64, effects: Seq<Effect>) -> bool {
        &&& self.shared.wf()
        &&& self@ == start.run(i, h, now).0
        &&& effects == start.run(i, h, now).1
        &&& self@.sessions.len() == start.sessions.len()
        &&& self@.sessions_wf()
        &&& forall|j: int| 0 <= j < self.sessions@.len() ==> (#[trigger] self.sessions@[j]).wf()
    }

    /// Routes what a message said to the sessions at time `now`. `from` is
    /// the sender, or nothing for blocks from the local store; `blocks` are
    /// the identifiers of the blocks that came, `haves` and `dont_haves`
    /// what the sender said about its blocks; `latency` is the round trip
    /// that the message gave, where one was measured. Every session that
    /// the message says something to takes it in, and what it asks for is
    /// carried out. Returns what the driver has to do.
    #[verifier::rlimit(60)]
    pub fn receive_from(
        &mut self,
        from: Option<PeerId>,
        blocks: &Vec<Cid>,
        haves: &Vec<Cid>,
        dont_haves: &Vec<Cid>,
        latency: Option<u64>,
        now: u64,
    ) -> (effects: Vec<Effect>)
        requires
            old(self).wf(),
        ensures
            final(self)@ == old(self)@.receive_from(
                from,
                blocks@,
                haves@,
                dont_haves@,
                latency,
                now,
            ),
            effects@ == old(self)@.receive_from_effects(
                from,
                blocks@,
                haves@,
                dont_haves@,
                latency,
                now,
            ),
            final(self).wf(),
    {
        proof {
            self.lemma_sessions();
        }
        match from {
            None => {},
            Some(peer) => {
                self.shared.presences.receive_from(&peer, haves, dont_haves);
                self.shared.peers.block_received(&peer, blocks);
            },
        }
        let ghost start = self@;
        let ghost h = on_message(from, blocks@, haves@, dont_haves@, latency, now);
        let mut effects: Vec<Effect> = Vec::new();
        let mut i: usize = 0;
        assert(self@.sessions =~= old(self)@.sessions);
        while i < self.sessions.len()
            invariant
                i <= self.sessions@.len(),
                self.sessions@.len() == start.sessions.len(),
                h == on_message(from, blocks@, haves@, dont_haves@, latency, now),
                self.pass_inv(start, i as int, h, now, effects@),
            decreases self.sessions@.len() - i,
        {
            let ghost m = self@;
            let ghost e = effects@;
            assert(m.sessions[i as int] == self.sessions@[i as int]@);
            if self.sessions[i].is_relevant(blocks, haves, dont_haves) {
                let id = self.sessions[i].id();
                let cmds = self.sessions[i].receive_from(from, blocks, haves, dont_haves, latency, now);
                self.shared.apply_all(id, &cmds, self.priority, now, &mut effects);
            }
            proof {
                let next = start.run(i + 1, h, now);
                assert(self@.sessions =~= next.0.sessions);
                assert(effects@ =~= next.1);
                assert(ids_of(self@.sessions) =~= ids_of(m.sessions));
                assert forall|j: int| 0 <= j < self@.sessions.len() implies (
                #[trigger] self@.sessions[j]).wf() && !self@.sessions[j].stopped && (
                self@.sessions[j].id < self@.next_id || self@.next_id == u64::MAX) by {
                    if j != i {
                        assert(self@.sessions[j] == m.sessions[j]);
                    } else {
                        assert(self.sessions@[j].wf());
                        assert(m.sessions[j].wf());
                    }
                }
            }
            i += 1;
        }
        self.lower_priority();
        effects
    }

    /// Looks at the timers of every session at time `now`, and carries out
    /// what the sessions ask for. Returns what the driver has to do.
    #[verifier::rlimit(60)]
    pub fn tick(&mut self, now: u64) -> (effects: Vec<Effect>)
        requires
            old(self).wf(),
        ensures
            final(self)@ == old(self)@.run_all(on_tick(now), now).step(),
            effects@ == old(self)@.run_effects(on_tick(now), now),
            final(self).wf(),
    {
        proof {
            self.lemma_sessions();
        }
        let ghost start = self@;
        let ghost h = on_tick(now);
        let mut effects: Vec<Effect> = Vec::new();
        let mut i: usize = 0;
        while i < self.sessions.len()
            invariant
                i <= self.sessions@.len(),
                self.sessions@.len() == start.sessions.len(),
                h == on_tick(now),
                self.pass_inv(start, i as int, h, now, effects@),
            decreases self.sessions@.len() - i,
        {
            let ghost m = self@;
            assert(m.sessions[i as int] == self.sessions@[i as int]@);
            let id = self.sessions[i].id();
            let mut cmds = self.sessions[i].tick(&self.shared.presences, now);
            let mut more = self.sessions[i].check_watchdogs(now);
            cmds.append(&mut more);
            self.shared.apply_all(id, &cmds, self.priority, now, &mut effects);
            proof {
                let next = start.run(i + 1, h, now);
                assert(self@.sessions =~= next.0.sessions);
                assert(effects@ =~= next.1);
                assert(ids_of(self@.sessions) =~= ids_of(m.sessions));
                assert forall|j: int| 0 <= j < self@.sessions.len() implies (
                #[trigger] self@.sessions[j]).wf() && !self@.sessions[j].stopped && (
                self@.sessions[j].id < self@.next_id || self@.next_id == u64::MAX) by {
                    if j != i {
                        assert(self@.sessions[j] == m.sessions[j]);
                    } else {
                        assert(self.sessions@[j].wf());
                        assert(m.sessions[j].wf());
                    }
                }
            }
            i += 1;
        }
        self.lower_priority();
        effects
    }

    /// Takes note at time `now` that a lookup has found `peer` as a
    /// provider of `cid`: every session that waits for providers of the
    /// block gets the peer as a candidate. Returns what the driver has to
    /// do.
    #[verifier::rlimit(60)]
    pub fn provider_found(&mut self, cid: &Cid, peer: &PeerId, now: u64) -> (effects: Vec<Effect>)
        requires
            old(self).wf(),
        ensures
            final(self)@ == old(self)@.provider_found(*cid, *peer, now),
            effects@ == old(self)@.provider_found_effects(*cid, *peer, now),
            final(self).wf(),
    {
        proof {
            self.lemma_sessions();
        }
        let waiting = self.shared.queries.provider_found(cid, peer);
        let ghost start = self@;
        let ghost h = on_provider(waiting@, *peer);
        let mut effects: Vec<Effect> = Vec::new();
        let mut i: usize = 0;
        while i < self.sessions.len()
            invariant
                i <= self.sessions@.len(),
                self.sessions@.len() == start.sessions.len(),
                h == on_provider(waiting@, *peer),
                self.pass_inv(start, i as int, h, now, effects@),
            decreases self.sessions@.len() - i,
        {
            let ghost m = self@;
            assert(m.sessions[i as int] == self.sessions@[i as int]@);
            let id = self.sessions[i].id();
            if crate::keyset::vec_contains(&waiting, &id) {
                let cmds = self.sessions[i].add_discovered_peer(*peer);
                self.shared.apply_all(id, &cmds, self.priority, now, &mut effects);
            }
            proof {
                let next = start.run(i + 1, h, now);
                assert(self@.sessions =~= next.0.sessions);
                assert(effects@ =~= next.1);
                assert(ids_of(self@.sessions) =~= ids_of(m.sessions));
                assert forall|j: int| 0 <= j < self@.sessions.len() implies (
                #[trigger] self@.sessions[j]).wf() && !self@.sessions[j].stopped && (
                self@.sessions[j].id < self@.next_id || self@.next_id == u64::MAX) by {
                    if j != i {
                        assert(self@.sessions[j] == m.sessions[j]);
                    } else {
                        assert(self.sessions@[j].wf());
                        assert(m.sessions[j].wf());
                    }
                }
            }
            i += 1;
        }
        self.lower_priority();
        effects
    }

    /// Takes note at time `now` that the lookup of providers of `cid` has
    /// ended. Returns the block of the lookup that the driver has to start
    /// in its place, if one waited.
    pub fn provider_query_finished(&mut self, cid: &Cid, now: u64) -> (start: Option<Cid>)
        requires
            old(self).wf(),
        ensures
            final(self)@ == old(self)@.provider_query_finished(*cid, now),
            start == old(self)@.next_query(*cid),
            final(self).wf(),
    {
        let r = self.shared.queries.query_finished(cid, now);
        assert(self@.sessions =~= old(self)@.sessions);
        r
    }

    /// Ends at time `now` every lookup of providers that has run for the
    /// allowed time. Nobody waits for their providers any more, and the
    /// lookups that waited take their places. Returns what the driver has
    /// to do.
    pub fn expire_queries(&mut self, now: u64) -> (effects: Vec<Effect>)
        requires
            old(self).wf(),
        ensures
            final(self)@ == old(self)@.expire_queries(now),
            effects@ == old(self)@.expire_queries_effects(now),
            final(self).wf(),
    {
        let changes = self.shared.queries.expire(now);
        assert(self@.sessions =~= old(self)@.sessions);
        let mut effects: Vec<Effect> = Vec::new();
        let mut i: usize = 0;
        while i < changes.len()
            invariant
                i <= changes@.len(),
                effects@ == query_effects(changes@.subrange(0, i as int)),
            decreases changes@.len() - i,
        {
            assert(changes@.subrange(0, i + 1).drop_last() =~= changes@.subrange(0, i as int));
            effects.push(Effect::StopProviderQuery { cid: changes[i].0 });
            match changes[i].1 {
                Some(next) => {
                    effects.push(Effect::StartProviderQuery { cid: next });
                },
                None => {},
            }
            i += 1;
        }
        assert(changes@.subrange(0, changes@.len() as int) =~= changes@);
        effects
    }

    /// Takes note at time `now` that `peer` has connected.
    pub fn peer_connected(&mut self, peer: &PeerId, now: u64)
        requires
            old(self).wf(),
        ensures
            final(self)@ == old(self)@.peer_connected(*peer, now),
            final(self).wf(),
    {
        self.shared.peers.connected(peer, self.priority, now);
        self.lower_priority();
        assert(self@.sessions =~= old(self)@.sessions);
    }

    /// Takes note at time `now` that `peer` has disconnected: its queue is
    /// stopped and dropped, what it said about its blocks is forgotten, no
    /// session keeps it as a candidate, and the other peers are asked about
    /// the blocks of which it had been told.
    #[verifier::rlimit(60)]
    pub fn peer_disconnected(&mut self, peer: &PeerId, now: u64)
        requires
            old(self).wf(),
        ensures
            final(self)@ == old(self)@.peer_disconnected(*peer, now),
            final(self).wf(),
    {
        proof {
            self.lemma_sessions();
        }
        self.shared.peers.disconnected(peer, self.priority, now);
        self.shared.presences.remove_peer(peer);
        let ghost start = self@;
        let ghost h = on_disconnect(*peer);
        let ghost none = Seq::<Effect>::empty();
        let mut i: usize = 0;
        assert(self@.sessions =~= old(self)@.sessions);
        while i < self.sessions.len()
            invariant
                i <= self.sessions@.len(),
                self.sessions@.len() == start.sessions.len(),
                h == on_disconnect(*peer),
                self.pass_inv(start, i as int, h, now, start.run(i as int, h, now).1),
            decreases self.sessions@.len() - i,
        {
            let ghost m = self@;
            assert(m.sessions[i as int] == self.sessions@[i as int]@);
            self.sessions[i].peer_disconnected(peer);
            proof {
                let next = start.run(i + 1, h, now);
                assert(self@.sessions =~= next.0.sessions);
                assert(ids_of(self@.sessions) =~= ids_of(m.sessions));
                assert forall|j: int| 0 <= j < self@.sessions.len() implies (
                #[trigger] self@.sessions[j]).wf() && !self@.sessions[j].stopped && (
                self@.sessions[j].id < self@.next_id || self@.next_id == u64::MAX) by {
                    if j != i {
                        assert(self@.sessions[j] == m.sessions[j]);
                    } else {
                        assert(self.sessions@[j].wf());
                        assert(m.sessions[j].wf());
                    }
                }
            }
            i += 1;
        }
        self.lower_priority();
    }
    /// The connected peers, in the order in which they connected.
    pub fn peers(&self) -> (v: Vec<PeerId>)
        ensures
            v@ == crate::keymap::keys_of(self@.shared.peers.wants.peers),
    {
        self.shared.peers.peers()
    }

    /// The identifiers of the sessions, in the order in which they were
    /// made.
    pub fn session_ids(&self) -> (v: Vec<u64>)
        ensures
            v@ == ids_of(self@.sessions),
    {
        let mut v: Vec<u64> = Vec::new();
        let mut i: usize = 0;
        while i < self.sessions.len()
            invariant
                i <= self.sessions@.len(),
                v@.len() == i,
                forall|j: int| 0 <= j < i ==> v@[j] == self.sessions@[j]@.id,
            decreases self.sessions@.len() - i,
        {
            v.push(self.sessions[i].id());
            i += 1;
        }
        assert(v@ =~= ids_of(self@.sessions));
        v
    }

    /// Whether the session `id` waits for `cid`.
    pub fn session_wants(&self, id: u64, cid: &Cid) -> (b: bool)
        requires
            self.wf(),
        ensures
            b == match self@.index_of(id) {
                Some(i) => self@.sessions[i].wanted.contains(*cid),
                None => false,
            },
    {
        proof {
            self.lemma_sessions();
        }
        match self.position(id) {
            None => false,
            Some(i) => {
                assert(self@.sessions[i as int] == self.sessions@[i as int]@);
                self.sessions[i].wants(cid)
            },
        }
    }

    /// Asks for the next message to `peer` at time `now`; see
    /// [`crate::message_queue::MessageQueue::poll`].
    pub fn poll(&mut self, peer: &PeerId, now: u64) -> (message: Option<Vec<crate::wantlist::Entry>>)
        requires
            old(self).wf(),
        ensures
            final(self)@ == old(self)@.with_peers(old(self)@.shared.peers.poll(*peer, now)),
            match message {
                Some(m) => old(self)@.shared.peers.next_message(*peer, now) == Some(m@),
                None => old(self)@.shared.peers.next_message(*peer, now) is None,
            },
            final(self).wf(),
    {
        let m = self.shared.peers.poll(peer, now);
        assert(self@.sessions =~= old(self)@.sessions);
        m
    }

    /// Tells the manager at time `now` how the sending of the last message
    /// to `peer` ended. A peer that counts as out of reach after this
    /// failure is treated as disconnected.
    pub fn send_complete(&mut self, peer: &PeerId, ok: bool, now: u64) -> (outcome:
        crate::message_queue::SendOutcome)
        requires
            old(self).wf(),
        ensures
            outcome == old(self)@.shared.peers.outcome(*peer, ok),
            final(self)@ == old(self)@.send_complete(*peer, ok, now),
            final(self).wf(),
    {
        let would = self.shared.peers.outcome(peer, ok);
        match would {
            crate::message_queue::SendOutcome::Unreachable => {
                self.peer_disconnected(peer, now);
            },
            _ => {
                self.shared.peers.send_complete(peer, ok, self.priority, now);
                assert(self@.sessions =~= old(self)@.sessions);
            },
        }
        would
    }

    /// Takes note at time `now` that `peer` answered for `cids`, and
    /// returns the round trip that this gave, where one was measured; see
    /// [`crate::peer_manager::PeerManager::response_received`].
    pub fn response_received(&mut self, peer: &PeerId, cids: &Vec<Cid>, now: u64) -> (latency: Option<u64>)
        requires
            old(self).wf(),
        ensures
            latency == old(self)@.shared.peers.latency(*peer, cids@, now),
            final(self)@ == old(self)@.with_peers(
                old(self)@.shared.peers.response_received(*peer, cids@, now),
            ),
            final(self).wf(),
    {
        let latency = self.shared.peers.response_received(peer, cids, now);
        assert(self@.sessions =~= old(self)@.sessions);
        latency
    }

    /// Takes out at time `now` the wants of `peer` that were not answered
    /// in time. Where `simulate` is set, the peer is taken to have said
    /// that it lacks those blocks, and the sessions hear of it. Returns
    /// what the driver has to do.
    pub fn check_timeouts(&mut self, peer: &PeerId, simulate: bool, now: u64) -> (effects: Vec<Effect>)
        requires
            old(self).wf(),
        ensures
            final(self)@ == old(self)@.check_timeouts(*peer, simulate, now),
            effects@ == old(self)@.check_timeouts_effects(*peer, simulate, now),
            final(self).wf(),
    {
        let late = self.shared.peers.check_timeouts(peer, now);
        assert(self@.sessions =~= old(self)@.sessions);
        if simulate && late.len() > 0 {
            let none: Vec<Cid> = Vec::new();
            self.receive_from(Some(*peer), &none, &none, &late, None, now)
        } else {
            Vec::new()
        }
    }

    /// Looks at time `now` whether the open wants of `peer` are due to be
    /// sent again; see [`crate::message_queue::MessageQueue::rebroadcast`].
    pub fn rebroadcast(&mut self, peer: &PeerId, now: u64)
        requires
            old(self).wf(),
        ensures
            final(self)@ == old(self)@.with_peers(old(self)@.shared.peers.rebroadcast(*peer, now)),
            final(self).wf(),
    {
        self.shared.peers.rebroadcast(peer, now);
        assert(self@.sessions =~= old(self)@.sessions);
    }

    /// Stops every session at time `now`, oldest first, and then every
    /// queue. Returns what the driver has to do.
    pub fn stop(&mut self, now: u64) -> (effects: Vec<Effect>)
        requires
            old(self).wf(),
        ensures
            final(self)@ == old(self)@.stop_sessions(now).with_peers(
                old(self)@.stop_sessions(now).shared.peers.stop(),
            ),
            effects@ == old(self)@.stop_sessions_effects(now),
            final(self)@.sessions.len() == 0,
            final(self).wf(),
    {
        let ghost before = self@;
        let mut effects: Vec<Effect> = Vec::new();
        proof {
            self.lemma_sessions();
            assert(Seq::<Effect>::empty() + before.stop_sessions_effects(now)
                =~= before.stop_sessions_effects(now));
        }
        while self.sessions.len() > 0
            invariant
                self.wf(),
                self@.sessions.len() == self.sessions@.len(),
                self@.stop_sessions(now) == before.stop_sessions(now),
                effects@ + self@.stop_sessions_effects(now) == before.stop_sessions_effects(now),
            decreases self.sessions@.len(),
        {
            let ghost m = self@;
            let ghost e = effects@;
            let id = self.sessions[0].id();
            proof {
                assert(m.sessions[0] == self.sessions@[0]@);
                assert(ids_of(m.sessions)[0] == id);
                let p = ids_of(m.sessions).index_of(id);
                assert(0 <= p < m.sessions.len());
            }
            let mut more = self.stop_session(id, now);
            proof {
                self.lemma_sessions();
                assert((e + m.stop_session_effects(id, now)) + self@.stop_sessions_effects(now)
                    =~= e + (m.stop_session_effects(id, now) + self@.stop_sessions_effects(
                    now,
                )));
            }
            effects.append(&mut more);
        }
        proof {
            assert(effects@ + Seq::<Effect>::empty() =~= effects@);
        }
        self.shared.peers.stop();
        assert(self@.sessions =~= old(self)@.stop_sessions(now).sessions);
        effects
    }
    /// The identifier that the next new session gets.
    pub fn next_id(&self) -> (id: u64)
        ensures
            id == self@.next_id,
    {
        self.next_id
    }

    /// Splits the positions of `blocks` into those of blocks that some
    /// session wants and those of blocks that no session wants; see
    /// [`crate::session_interest_manager::SessionInterestManager::split_wanted_unwanted`].
    pub fn split_wanted_unwanted(&self, blocks: &Vec<crate::ident::Block>) -> (r: (Vec<usize>, Vec<usize>))
        requires
            self.wf(),
        ensures
            crate::session_interest_manager::split_of(self@.shared.interest, blocks@, r.0@, r.1@),
    {
        self.shared.interest.split_wanted_unwanted(blocks)
    }

    /// Everything that is wanted of any peer; see
    /// [`crate::peer_manager::PeerManager::current_wants`].
    pub fn current_wants(&self) -> (s: ahash::AHashSet<Cid>)
        requires
            self.wf(),
        ensures
            crate::cid_set::cid_set_contents(s) == crate::keyset::union(
                crate::keyset::union(
                    self@.shared.peers.wants.broadcast,
                    crate::peer_want_manager::all_blocks(self@.shared.peers.wants.peers),
                ),
                crate::peer_want_manager::all_haves(self@.shared.peers.wants.peers),
            ).to_set(),
    {
        self.shared.peers.current_wants()
    }

    /// The blocks that some peer was asked to send.
    pub fn current_want_blocks(&self) -> (s: ahash::AHashSet<Cid>)
        requires
            self.wf(),
        ensures
            crate::cid_set::cid_set_contents(s) == crate::peer_want_manager::all_blocks(
                self@.shared.peers.wants.peers,
            ).to_set(),
    {
        self.shared.peers.current_want_blocks()
    }

    /// The blocks of which some peer was asked whether it has them.
    pub fn current_want_haves(&self) -> (s: ahash::AHashSet<Cid>)
        requires
            self.wf(),
        ensures
            crate::cid_set::cid_set_contents(s) == crate::peer_want_manager::all_haves(
                self@.shared.peers.wants.peers,
            ).to_set(),
    {
        self.shared.peers.current_want_haves()
    }
}

} // verus!
