//! The parts that all sessions share, and how a session's commands are
//! carried out on them.

use crate::block_presence_manager::{presences_wf, BlockPresenceManager, Presences, DEFAULT_PRESENCE_CAPACITY};
use crate::ident::{Cid, PeerId};
use crate::keymap::keys_of;
use crate::message_queue::QueueConfig;
use crate::peer_manager::{no_peers, PeerManager, PeerManagerView};
use crate::provider_query_manager::{has_subscriber, no_queries, ProviderQueryManager, QueriesView};
use crate::peer_want_manager::asked_nothing_new;
use crate::session::{asks_about, Command};
use crate::session_interest_manager::{interests_wf, orphaned, released, sole_interest, Interests, SessionInterestManager};
use vstd::prelude::*;

verus! {

/// What the driver has to do.
#[derive(Clone, Copy, PartialEq, Eq, Structural, Debug)]
pub enum Effect {
    /// Hand the block `cid`, which has just come in, to the callers of
    /// `session`.
    Deliver { session: u64, cid: Cid },
    /// Start a lookup of providers of the block.
    StartProviderQuery { cid: Cid },
    /// Stop the lookup of providers of the block.
    StopProviderQuery { cid: Cid },
    /// Connect to the peer.
    Connect { peer: PeerId },
}

/// The state of the shared parts.
pub ghost struct SharedView {
    /// Which session wants which blocks.
    pub interest: Interests,
    /// What the peers have said about their blocks.
    pub presences: Presences,
    /// How many blocks are remembered of what one peer has said.
    pub capacity: usize,
    /// The connected peers, their queues, and what was asked of them.
    pub peers: PeerManagerView,
    /// The lookups of providers.
    pub queries: QueriesView,
}

/// Whether carrying out `cmd` for `session` stops the lookup of providers of
/// a released block: it does when nobody else waits for the lookup and it
/// runs.
pub open spec fn stops_query(q: QueriesView, session: u64, cid: Cid) -> bool {
    !has_subscriber(q.left(cid, session).subs, cid) && keys_of(q.active).contains(cid)
}

impl SharedView {
    /// Every part is in order.
    pub open spec fn wf(self) -> bool {
        &&& interests_wf(self.interest)
        &&& presences_wf(self.presences, self.capacity)
        &&& self.peers.wf()
        &&& self.queries.wf()
    }

    /// The state of shared parts that know no session, no peer and no
    /// lookup, where the queues of peers get the settings `config`.
    pub open spec fn initial(config: QueueConfig) -> SharedView {
        SharedView {
            interest: Seq::empty(),
            presences: Seq::empty(),
            capacity: DEFAULT_PRESENCE_CAPACITY,
            peers: no_peers(config),
            queries: no_queries(),
        }
    }

    /// The state after `cmd` of `session` was carried out at time `now`.
    pub open spec fn apply(self, session: u64, cmd: Command, priority: i32, now: u64) -> SharedView {
        match cmd {
            Command::BroadcastWantHave { cid } => SharedView {
                peers: self.peers.broadcast_want_haves(seq![cid], priority, now),
                ..self
            },
            Command::BroadcastWantBlock { cid } => SharedView {
                peers: self.peers.broadcast_want_block(cid, priority, now),
                ..self
            },
            Command::WantBlock { peer, cid } => SharedView {
                peers: self.peers.send_wants(peer, seq![cid], Seq::empty(), priority, now),
                ..self
            },
            Command::WantHave { peer, cid } => SharedView {
                peers: self.peers.send_wants(peer, Seq::empty(), seq![cid], priority, now),
                ..self
            },
            Command::Release { cid } => {
                let interest = released(self.interest, session, seq![cid]);
                SharedView {
                    interest,
                    peers: self.peers.send_cancels(
                        orphaned(self.interest, interest, session, seq![cid]),
                        now,
                    ),
                    queries: self.queries.unsubscribe(cid, session, now),
                    ..self
                }
            },
            Command::FindProviders { cid } => SharedView {
                queries: self.queries.find_providers(cid, session, now),
                ..self
            },
            Command::Deliver { cid } => self,
            Command::Connect { peer } => self,
        }
    }

    /// What the driver has to do when `cmd` of `session` is carried out.
    pub open spec fn effects(self, session: u64, cmd: Command) -> Seq<Effect> {
        match cmd {
            Command::Deliver { cid } => seq![Effect::Deliver { session, cid }],
            Command::Connect { peer } => seq![Effect::Connect { peer }],
            Command::FindProviders { cid } => if self.queries.starts(cid) {
                seq![Effect::StartProviderQuery { cid }]
            } else {
                Seq::empty()
            },
            Command::Release { cid } => if !stops_query(self.queries, session, cid) {
                Seq::empty()
            } else if self.queries.queued.len() > 0 {
                seq![
                    Effect::StopProviderQuery { cid },
                    Effect::StartProviderQuery { cid: self.queries.queued[0] },
                ]
            } else {
                seq![Effect::StopProviderQuery { cid }]
            },
            _ => Seq::empty(),
        }
    }

    /// The state after the commands `cmds` of `session` were carried out in
    /// turn.
    pub open spec fn apply_all(self, session: u64, cmds: Seq<Command>, priority: i32, now: u64) -> SharedView
        decreases cmds.len(),
    {
        if cmds.len() == 0 {
            self
        } else {
            self.apply_all(session, cmds.drop_last(), priority, now).apply(
                session,
                cmds.last(),
                priority,
                now,
            )
        }
    }

    /// What the driver has to do when the commands `cmds` of `session` are
    /// carried out in turn.
    pub open spec fn effects_all(self, session: u64, cmds: Seq<Command>, priority: i32, now: u64) -> Seq<
        Effect,
    >
        decreases cmds.len(),
    {
        if cmds.len() == 0 {
            Seq::empty()
        } else {
            self.effects_all(session, cmds.drop_last(), priority, now) + self.apply_all(
                session,
                cmds.drop_last(),
                priority,
                now,
            ).effects(session, cmds.last())
        }
    }
}

/// A block is handed to the callers of a session only on that session's
/// command: the deliveries among the effects of a session's commands are
/// those of its `Deliver` commands, and they name that session.
pub proof fn lemma_deliveries(v: SharedView, session: u64, cmds: Seq<Command>, priority: i32, now: u64, e: Effect)
    requires
        v.effects_all(session, cmds, priority, now).contains(e),
        e is Deliver,
    ensures
        e->session == session,
        cmds.contains(Command::Deliver { cid: e->Deliver_cid }),
    decreases cmds.len(),
{
    if cmds.len() > 0 {
        let head = v.effects_all(session, cmds.drop_last(), priority, now);
        let last = v.apply_all(session, cmds.drop_last(), priority, now).effects(
            session,
            cmds.last(),
        );
        let all = head + last;
        let i = choose|i: int| 0 <= i < all.len() && all[i] == e;
        if i < head.len() {
            assert(head[i] == e);
            lemma_deliveries(v, session, cmds.drop_last(), priority, now, e);
            let j = choose|j: int|
                0 <= j < cmds.drop_last().len() && cmds.drop_last()[j] == (Command::Deliver {
                    cid: e->Deliver_cid,
                });
            assert(cmds[j] == cmds.drop_last()[j]);
        } else {
            assert(last[i - head.len()] == e);
            assert(cmds[cmds.len() - 1] == cmds.last());
        }
    }
}

/// Every `Deliver` command of a session reaches the driver: the effects of
/// a session's commands hold a delivery to that session for each.
pub proof fn lemma_delivered(v: SharedView, session: u64, cmds: Seq<Command>, priority: i32, now: u64, cid: Cid)
    requires
        cmds.contains(Command::Deliver { cid }),
    ensures
        v.effects_all(session, cmds, priority, now).contains(Effect::Deliver { session, cid }),
    decreases cmds.len(),
{
    let target = Command::Deliver { cid };
    let want = Effect::Deliver { session, cid };
    let i = choose|i: int| 0 <= i < cmds.len() && cmds[i] == target;
    let head = v.effects_all(session, cmds.drop_last(), priority, now);
    let last = v.apply_all(session, cmds.drop_last(), priority, now).effects(session, cmds.last());
    if i == cmds.len() - 1 {
        assert(last[0] == want);
        assert((head + last)[head.len() as int] == want);
    } else {
        assert(cmds.drop_last()[i] == target);
        lemma_delivered(v, session, cmds.drop_last(), priority, now, cid);
        let j = choose|j: int| 0 <= j < head.len() && head[j] == want;
        assert((head + last)[j] == want);
    }
}

/// Carrying out a command changes no bound: the number of lookups that may
/// run, the time a lookup may take, the number of blocks remembered of what
/// a peer has said, and the settings of new queues stay as they are.
pub proof fn lemma_apply_keeps_bounds(v: SharedView, session: u64, cmds: Seq<Command>, priority: i32, now: u64)
    ensures
        v.apply_all(session, cmds, priority, now).queries.max_active == v.queries.max_active,
        v.apply_all(session, cmds, priority, now).queries.timeout == v.queries.timeout,
        v.apply_all(session, cmds, priority, now).capacity == v.capacity,
        v.apply_all(session, cmds, priority, now).presences == v.presences,
    decreases cmds.len(),
{
    if cmds.len() > 0 {
        lemma_apply_keeps_bounds(v, session, cmds.drop_last(), priority, now);
    }
}

/// A lookup is started for a block only when none runs or waits for it and
/// one more may run: sessions that ask while a lookup is known share it.
pub proof fn lemma_lookup_starts_once(v: SharedView, session: u64, cid: Cid, e: Effect)
    requires
        v.effects(session, Command::FindProviders { cid }).contains(e),
    ensures
        e == (Effect::StartProviderQuery { cid }),
        !v.queries.is_known(cid),
        v.queries.active.len() < v.queries.max_active,
{
    let effects = v.effects(session, Command::FindProviders { cid });
    let i = choose|i: int| 0 <= i < effects.len() && effects[i] == e;
}

/// Commands that ask nothing about a block ask nothing new of any peer
/// about it: what a peer counts as told of the block after they were
/// carried out, if anything, is what it was told before.
pub proof fn lemma_apply_asks_nothing_new(
    v: SharedView,
    session: u64,
    cmds: Seq<Command>,
    priority: i32,
    now: u64,
    p: PeerId,
    c: Cid,
)
    requires
        forall|i: int| 0 <= i < cmds.len() ==> !asks_about(#[trigger] cmds[i], c),
    ensures
        asked_nothing_new(
            v.peers.wants,
            v.apply_all(session, cmds, priority, now).peers.wants,
            p,
            c,
        ),
    decreases cmds.len(),
{
    if cmds.len() > 0 {
        let d = cmds.drop_last();
        assert forall|i: int| 0 <= i < d.len() implies !asks_about(#[trigger] d[i], c) by {
            assert(d[i] == cmds[i]);
        }
        lemma_apply_asks_nothing_new(v, session, d, priority, now, p, c);
        let mid = v.apply_all(session, d, priority, now);
        let cmd = cmds.last();
        assert(cmd == cmds[cmds.len() - 1]);
        assert(!asks_about(cmd, c));
        match cmd {
            Command::BroadcastWantHave { cid } => {
                assert(!seq![cid].contains(c)) by {
                    if seq![cid].contains(c) {
                        let i = choose|i: int| 0 <= i < seq![cid].len() && seq![cid][i] == c;
                    }
                }
                crate::peer_manager::lemma_others_untouched(
                    mid.peers,
                    p,
                    seq![cid],
                    priority,
                    now,
                    p,
                    c,
                );
            },
            Command::BroadcastWantBlock { cid } => {
                crate::peer_manager::lemma_want_block_from_leaves_others(
                    mid.peers,
                    keys_of(mid.peers.wants.peers),
                    cid,
                    priority,
                    now,
                    p,
                    c,
                );
            },
            Command::WantBlock { peer, cid } => {
                assert(!seq![cid].contains(c)) by {
                    if seq![cid].contains(c) {
                        let i = choose|i: int| 0 <= i < seq![cid].len() && seq![cid][i] == c;
                    }
                }
                assert(!Seq::<Cid>::empty().contains(c));
                crate::peer_manager::lemma_send_wants_leaves_others(
                    mid.peers,
                    peer,
                    seq![cid],
                    Seq::empty(),
                    priority,
                    now,
                    p,
                    c,
                );
            },
            Command::WantHave { peer, cid } => {
                assert(!seq![cid].contains(c)) by {
                    if seq![cid].contains(c) {
                        let i = choose|i: int| 0 <= i < seq![cid].len() && seq![cid][i] == c;
                    }
                }
                assert(!Seq::<Cid>::empty().contains(c));
                crate::peer_manager::lemma_send_wants_leaves_others(
                    mid.peers,
                    peer,
                    Seq::empty(),
                    seq![cid],
                    priority,
                    now,
                    p,
                    c,
                );
            },
            Command::Release { cid } => {
                let interest = released(mid.interest, session, seq![cid]);
                crate::peer_manager::lemma_others_untouched(
                    mid.peers,
                    p,
                    orphaned(mid.interest, interest, session, seq![cid]),
                    priority,
                    now,
                    p,
                    c,
                );
            },
            Command::FindProviders { cid } => {},
            Command::Deliver { cid } => {},
            Command::Connect { peer } => {},
        }
    }
}

/// Commands that release other blocks leave the interest in a block as it
/// was.
pub proof fn lemma_apply_keeps_interest(
    v: SharedView,
    session: u64,
    cmds: Seq<Command>,
    priority: i32,
    now: u64,
    holder: u64,
    cid: Cid,
)
    requires
        !cmds.contains(Command::Release { cid }),
    ensures
        sole_interest(v.apply_all(session, cmds, priority, now).interest, holder, cid)
            == sole_interest(v.interest, holder, cid),
        keys_of(v.apply_all(session, cmds, priority, now).interest) == keys_of(v.interest),
    decreases cmds.len(),
{
    if cmds.len() > 0 {
        let d = cmds.drop_last();
        if d.contains(Command::Release { cid }) {
            let i = choose|i: int| 0 <= i < d.len() && d[i] == (Command::Release { cid });
            assert(cmds[i] == d[i]);
        }
        lemma_apply_keeps_interest(v, session, d, priority, now, holder, cid);
        let mid = v.apply_all(session, d, priority, now);
        assert(cmds[cmds.len() - 1] == cmds.last());
        match cmds.last() {
            Command::Release { cid: gone } => {
                crate::session_interest_manager::lemma_release_keeps_others(
                    mid.interest,
                    session,
                    gone,
                    holder,
                    cid,
                );
                crate::session_interest_manager::lemma_release_keeps_keys(
                    mid.interest,
                    session,
                    seq![gone],
                );
            },
            _ => {},
        }
    }
}

/// What a session releases is taken back from the peers when nobody else
/// wants it: after the commands of the only session that wants a block
/// were carried out, among them the release of the block and none that
/// asks about it, no peer counts as told of the block.
pub proof fn lemma_release_takes_wants_back(
    v: SharedView,
    session: u64,
    cmds: Seq<Command>,
    priority: i32,
    now: u64,
    p: PeerId,
    cid: Cid,
)
    requires
        keys_of(v.interest).no_duplicates(),
        sole_interest(v.interest, session, cid),
        cmds.contains(Command::Release { cid }),
        forall|i: int| 0 <= i < cmds.len() ==> !asks_about(#[trigger] cmds[i], cid),
    ensures
        crate::peer_want_manager::told_peer(
            v.apply_all(session, cmds, priority, now).peers.wants,
            p,
            cid,
        ) is None,
    decreases cmds.len(),
{
    let d = cmds.drop_last();
    let mid = v.apply_all(session, d, priority, now);
    let last = cmds.last();
    assert(cmds[cmds.len() - 1] == last);
    assert forall|i: int| 0 <= i < d.len() implies !asks_about(#[trigger] d[i], cid) by {
        assert(d[i] == cmds[i]);
    }
    if d.contains(Command::Release { cid }) {
        lemma_release_takes_wants_back(v, session, d, priority, now, p, cid);
        let one = seq![last];
        assert forall|i: int| 0 <= i < one.len() implies !asks_about(#[trigger] one[i], cid) by {
        }
        assert(one.drop_last() =~= Seq::<Command>::empty());
        assert(one.last() == last);
        assert(mid.apply_all(session, Seq::<Command>::empty(), priority, now) == mid);
        assert(mid.apply_all(session, one, priority, now) == mid.apply(
            session,
            last,
            priority,
            now,
        ));
        lemma_apply_asks_nothing_new(mid, session, one, priority, now, p, cid);
    } else {
        let i = choose|i: int| 0 <= i < cmds.len() && cmds[i] == (Command::Release { cid });
        if i < d.len() {
            assert(d[i] == cmds[i]);
        }
        assert(last == (Command::Release { cid }));
        lemma_apply_keeps_interest(v, session, d, priority, now, session, cid);
        crate::session_interest_manager::lemma_sole_release(mid.interest, session, cid);
        let interest = released(mid.interest, session, seq![cid]);
        crate::peer_manager::lemma_cancel_tells_nothing(
            mid.peers,
            orphaned(mid.interest, interest, session, seq![cid]),
            now,
            p,
            cid,
        );
    }
}

/// When the only session that wants a block releases it, the want is taken
/// back from every peer: no peer counts as told of the block, and in the
/// queue of a peer that had been told of it no want for it waits to be
/// sent.
pub proof fn lemma_sole_release_cancels(v: SharedView, session: u64, cid: Cid, priority: i32, now: u64, i: int)
    requires
        v.wf(),
        sole_interest(v.interest, session, cid),
        0 <= i < v.peers.peers.len(),
    ensures
        crate::peer_want_manager::told(
            v.apply(session, Command::Release { cid }, priority, now).peers.wants.peers[i].1,
            cid,
        ) is None,
        crate::peer_want_manager::told(v.peers.wants.peers[i].1, cid) is Some && !(
        v.peers.peers[i].queue.state is Closing) ==> crate::wantlist::entry_of(
            v.apply(session, Command::Release { cid }, priority, now).peers.peers[i].queue.pending,
            cid,
        ) is None,
        !crate::session_interest_manager::is_wanted(
            v.apply(session, Command::Release { cid }, priority, now).interest,
            cid,
        ),
{
    crate::session_interest_manager::lemma_sole_release(v.interest, session, cid);
    let interest = released(v.interest, session, seq![cid]);
    crate::peer_manager::lemma_send_cancels(
        v.peers,
        orphaned(v.interest, interest, session, seq![cid]),
        now,
        i,
        cid,
    );
}

/// The shared parts.
pub struct Shared {
    pub interest: SessionInterestManager,
    pub presences: BlockPresenceManager,
    pub peers: PeerManager,
    pub queries: ProviderQueryManager,
}

impl View for Shared {
    type V = SharedView;

    open spec fn view(&self) -> SharedView {
        SharedView {
            interest: self.interest@,
            presences: self.presences@,
            capacity: self.presences.capacity(),
            peers: self.peers@,
            queries: self.queries@,
        }
    }
}

impl Shared {
    /// Every part is in order; see [`SharedView::wf`].
    pub open spec fn wf(&self) -> bool {
        self@.wf()
    }

    /// Shared parts that know no session, no peer and no lookup.
    pub fn new(config: QueueConfig) -> (s: Self)
        ensures
            s.wf(),
            s@ == SharedView::initial(config),
    {
        Shared {
            interest: SessionInterestManager::new(),
            presences: BlockPresenceManager::new(),
            peers: PeerManager::new(config),
            queries: ProviderQueryManager::new(),
        }
    }

    /// Carries out one command of `session` at time `now`, and adds to
    /// `effects` what the driver has to do.
    pub fn apply(&mut self, session: u64, cmd: Command, priority: i32, now: u64, effects: &mut Vec<Effect>)
        requires
            old(self).wf(),
        ensures
            final(self)@ == old(self)@.apply(session, cmd, priority, now),
            final(effects)@ == old(effects)@ + old(self)@.effects(session, cmd),
            final(self).wf(),
    {
        let ghost before = self@;
        let ghost base = effects@;
        assert(base + Seq::<Effect>::empty() =~= base);
        match cmd {
            Command::BroadcastWantHave { cid } => {
                let mut cids: Vec<Cid> = Vec::new();
                cids.push(cid);
                assert(cids@ =~= seq![cid]);
                self.peers.broadcast_want_haves(&cids, priority, now);
            },
            Command::BroadcastWantBlock { cid } => {
                self.peers.broadcast_want_block(cid, priority, now);
            },
            Command::WantBlock { peer, cid } => {
                let mut cids: Vec<Cid> = Vec::new();
                cids.push(cid);
                assert(cids@ =~= seq![cid]);
                let none: Vec<Cid> = Vec::new();
                self.peers.send_wants(&peer, &cids, &none, priority, now);
            },
            Command::WantHave { peer, cid } => {
                let mut cids: Vec<Cid> = Vec::new();
                cids.push(cid);
                assert(cids@ =~= seq![cid]);
                let none: Vec<Cid> = Vec::new();
                self.peers.send_wants(&peer, &none, &cids, priority, now);
            },
            Command::Release { cid } => {
                let mut cids: Vec<Cid> = Vec::new();
                cids.push(cid);
                assert(cids@ =~= seq![cid]);
                let orphans = self.interest.remove_session_interest_for_cids(session, &cids);
                self.peers.send_cancels(&orphans, now);
                let change = self.queries.unsubscribe(&cid, session, now);
                if change.stop {
                    effects.push(Effect::StopProviderQuery { cid });
                    if change.start {
                        effects.push(Effect::StartProviderQuery { cid: change.start_cid });
                    }
                }
                assert(effects@ =~= base + before.effects(session, cmd));
            },
            Command::FindProviders { cid } => {
                if self.queries.find_providers(cid, session, now) {
                    effects.push(Effect::StartProviderQuery { cid });
                }
                assert(effects@ =~= base + before.effects(session, cmd));
            },
            Command::Deliver { cid } => {
                effects.push(Effect::Deliver { session, cid });
                assert(effects@ =~= base + before.effects(session, cmd));
            },
            Command::Connect { peer } => {
                effects.push(Effect::Connect { peer });
                assert(effects@ =~= base + before.effects(session, cmd));
            },
        }
    }

    /// Carries out the commands `cmds` of `session` in turn at time `now`,
    /// and adds to `effects` what the driver has to do.
    pub fn apply_all(
        &mut self,
        session: u64,
        cmds: &Vec<Command>,
        priority: i32,
        now: u64,
        effects: &mut Vec<Effect>,
    )
        requires
            old(self).wf(),
        ensures
            final(self)@ == old(self)@.apply_all(session, cmds@, priority, now),
            final(effects)@ == old(effects)@ + old(self)@.effects_all(session, cmds@, priority, now),
            final(self).wf(),
    {
        let ghost before = self@;
        let ghost base = effects@;
        let mut i: usize = 0;
        assert(base + Seq::<Effect>::empty() =~= base);
        while i < cmds.len()
            invariant
                i <= cmds@.len(),
                self.wf(),
                self@ == before.apply_all(session, cmds@.subrange(0, i as int), priority, now),
                effects@ == base + before.effects_all(
                    session,
                    cmds@.subrange(0, i as int),
                    priority,
                    now,
                ),
            decreases cmds@.len() - i,
        {
            proof {
                assert(cmds@.subrange(0, i + 1).drop_last() =~= cmds@.subrange(0, i as int));
                let head = before.effects_all(session, cmds@.subrange(0, i as int), priority, now);
                let next = self@.effects(session, cmds@[i as int]);
                assert((base + head) + next =~= base + (head + next));
            }
            self.apply(session, cmds[i], priority, now, effects);
            i += 1;
        }
        assert(cmds@.subrange(0, cmds@.len() as int) =~= cmds@);
    }
}

} // verus!
