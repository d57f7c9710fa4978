//! The client: the surface of the block exchange.
//!
//! The client owns all state and does no input or output. Its driver feeds
//! it what happens (a caller asks for blocks, a message arrives, a peer
//! connects, time passes) and carries out what the client hands back:
//! blocks to give to callers, lookups to start, and, through
//! [`Client::poll`], messages to send.

use crate::cid_set::cid_set_contents;
use crate::ident::{Block, Cid, PeerId};
use crate::keymap::keys_of;
use crate::keyset::union;
use crate::message::{block_cids, cids_of_blocks, presences_of, BitswapMessage, BlockPresence, BlockPresenceType};
use crate::message_queue::{default_queue_config, sat_add, saturating_add, QueueConfig, SendOutcome};
use crate::peer_want_manager::{all_blocks, all_haves};
use crate::session::SessionConfig;
use crate::session_interest_manager::is_wanted;
use crate::session_manager::{ids_of, on_tick, ManagerView, SessionManager};
use crate::shared::Effect;
use crate::wantlist::Entry;
use ahash::AHashSet;
use vstd::prelude::*;

verus! {

/// The settings of a client. Times are in milliseconds.
#[derive(Debug, Clone, Copy, PartialEq, Eq, Structural)]
pub struct Config {
    /// How long a new session waits before it has providers looked up.
    pub provider_search_delay: u64,
    /// How long a session waits between two broad rounds of want-haves.
    pub rebroadcast_delay: u64,
    /// Whether a peer that does not answer in time is taken to have said
    /// that it lacks the block.
    pub simluate_donthaves_on_timeout: bool,
}

impl Default for Config {
    fn default() -> (c: Self)
        ensures
            c == (Config {
                provider_search_delay: 1000,
                rebroadcast_delay: 60000,
                simluate_donthaves_on_timeout: true,
            }),
    {
        Config {
            provider_search_delay: 1000,
            rebroadcast_delay: 60000,
            simluate_donthaves_on_timeout: true,
        }
    }
}

/// Counts of what was received, and the blocks that are wanted.
#[derive(Debug, Clone, PartialEq, Eq)]
pub struct Stat {
    pub wantlist: Vec<Cid>,
    pub blocks_received: u64,
    pub data_received: u64,
    pub dup_blks_received: u64,
    pub dup_data_received: u64,
    pub messages_received: u64,
}

impl Default for Stat {
    fn default() -> (s: Self)
        ensures
            s.wantlist@.len() == 0,
            s.counters() == (Counters {
                blocks_received: 0,
                data_received: 0,
                dup_blks_received: 0,
                dup_data_received: 0,
                messages_received: 0,
            }),
    {
        Stat {
            wantlist: Vec::new(),
            blocks_received: 0,
            data_received: 0,
            dup_blks_received: 0,
            dup_data_received: 0,
            messages_received: 0,
        }
    }
}

/// The counts of what was received. A count that has reached the largest
/// number stays there.
pub ghost struct Counters {
    pub blocks_received: u64,
    pub data_received: u64,
    pub dup_blks_received: u64,
    pub dup_data_received: u64,
    pub messages_received: u64,
}

impl Stat {
    /// The counts.
    pub open spec fn counters(&self) -> Counters {
        Counters {
            blocks_received: self.blocks_received,
            data_received: self.data_received,
            dup_blks_received: self.dup_blks_received,
            dup_data_received: self.dup_data_received,
            messages_received: self.messages_received,
        }
    }
}

/// The counts after `blocks` were received: one more block and its bytes
/// for each. No block is counted as a duplicate.
pub open spec fn counted(c: Counters, blocks: Seq<Block>) -> Counters
    decreases blocks.len(),
{
    if blocks.len() == 0 {
        c
    } else {
        let prev = counted(c, blocks.drop_last());
        Counters {
            blocks_received: sat_add(prev.blocks_received, 1),
            data_received: sat_add(prev.data_received, blocks.last().data@.len() as u64),
            ..prev
        }
    }
}

/// The settings of the sessions of a client with the settings `config`.
pub open spec fn session_config(config: Config) -> SessionConfig {
    SessionConfig {
        provider_search_delay: config.provider_search_delay,
        rebroadcast_delay: config.rebroadcast_delay,
        simulate_dont_haves_on_timeout: config.simluate_donthaves_on_timeout,
    }
}

/// The state of a client.
pub ghost struct ClientView {
    pub manager: ManagerView,
    pub counters: Counters,
    pub config: Config,
}

impl ClientView {
    /// The state is in order: the sessions and the shared parts are; see
    /// [`ManagerView::wf`].
    pub open spec fn wf(self) -> bool {
        self.manager.wf()
    }

    /// The state of a new client with the settings `config`: nothing was
    /// received, there is no session, no peer and no lookup, and nothing is
    /// wanted.
    pub open spec fn initial(config: Config) -> ClientView {
        ClientView {
            manager: ManagerView::initial(default_queue_config()),
            counters: Counters {
                blocks_received: 0,
                data_received: 0,
                dup_blks_received: 0,
                dup_data_received: 0,
                messages_received: 0,
            },
            config,
        }
    }

    /// Everything that is wanted of any peer, each block once: the blocks
    /// asked of every peer, the blocks that some peer was asked to send,
    /// and the blocks of which some peer was asked whether it has them.
    pub open spec fn wantlist(self) -> Seq<Cid> {
        union(
            union(
                self.manager.shared.peers.wants.broadcast,
                all_blocks(self.manager.shared.peers.wants.peers),
            ),
            all_haves(self.manager.shared.peers.wants.peers),
        )
    }

    /// The state with the session manager in the state `manager`.
    pub open spec fn with(self, manager: ManagerView) -> ClientView {
        ClientView { manager, ..self }
    }

    /// Everything that a message says something about: its blocks, then
    /// the haves, then the dont-haves.
    pub open spec fn keys(blocks: Seq<Block>, presences: Seq<BlockPresence>) -> Seq<Cid> {
        block_cids(blocks) + presences_of(presences, BlockPresenceType::Have) + presences_of(
            presences,
            BlockPresenceType::DontHave,
        )
    }

    /// The session manager after a message from `peer` with `blocks` and
    /// `presences` was received at time `now`. A message that holds neither
    /// changes nothing.
    pub open spec fn routed(self, peer: PeerId, blocks: Seq<Block>, presences: Seq<BlockPresence>, now: u64) -> ManagerView {
        let keys = Self::keys(blocks, presences);
        if keys.len() == 0 {
            self.manager
        } else {
            self.manager.with_peers(
                self.manager.shared.peers.response_received(peer, keys, now),
            ).receive_from(
                Some(peer),
                block_cids(blocks),
                presences_of(presences, BlockPresenceType::Have),
                presences_of(presences, BlockPresenceType::DontHave),
                self.manager.shared.peers.latency(peer, keys, now),
                now,
            )
        }
    }

    /// What the driver has to do after such a message.
    pub open spec fn routed_effects(self, peer: PeerId, blocks: Seq<Block>, presences: Seq<BlockPresence>, now: u64) -> Seq<
        Effect,
    > {
        let keys = Self::keys(blocks, presences);
        if keys.len() == 0 {
            Seq::empty()
        } else {
            self.manager.with_peers(
                self.manager.shared.peers.response_received(peer, keys, now),
            ).receive_from_effects(
                Some(peer),
                block_cids(blocks),
                presences_of(presences, BlockPresenceType::Have),
                presences_of(presences, BlockPresenceType::DontHave),
                self.manager.shared.peers.latency(peer, keys, now),
                now,
            )
        }
    }

    /// The state after a message from `peer` was received at time `now`.
    pub open spec fn receive_message(self, peer: PeerId, blocks: Seq<Block>, presences: Seq<BlockPresence>, now: u64) -> ClientView {
        ClientView {
            manager: self.routed(peer, blocks, presences, now),
            counters: counted(
                Counters {
                    messages_received: sat_add(self.counters.messages_received, 1),
                    ..self.counters
                },
                blocks,
            ),
            ..self
        }
    }
}

/// Whether `wanted` holds, in rising order, the positions of the blocks of
/// `blocks` that some session wants.
pub open spec fn wanted_of(m: crate::session_interest_manager::Interests, blocks: Seq<Block>, wanted: Seq<usize>) -> bool {
    &&& forall|k: usize|
        wanted.contains(k) <==> k < blocks.len() && is_wanted(m, blocks[k as int].cid)
    &&& forall|a: int, b: int| 0 <= a < b < wanted.len() ==> wanted[a] < wanted[b]
}

/// What the driver has to do after a message was received.
pub struct Received {
    /// What is to be done for the sessions.
    pub effects: Vec<Effect>,
    /// The positions, in the message, of the blocks that some session
    /// wanted, in rising order: they are handed to whoever listens for
    /// received blocks.
    pub wanted: Vec<usize>,
}

/// The client.
pub struct Client {
    session_manager: SessionManager,
    counters: Stat,
    config: Config,
}

impl View for Client {
    type V = ClientView;

    closed spec fn view(&self) -> ClientView {
        ClientView {
            manager: self.session_manager@,
            counters: self.counters.counters(),
            config: self.config,
        }
    }
}

impl Client {
    /// The state is in order; see
    /// [`crate::session_manager::SessionManager::wf`].
    pub closed spec fn wf(&self) -> bool {
        self.session_manager.wf() && self.counters.wantlist@.len() == 0
    }

    /// Well-formedness of the client is well-formedness of its view: the
    /// sessions, the interest index, what peers have said, the peer
    /// manager with its queues, and the lookups are all in order.
    pub proof fn lemma_wf(&self)
        requires
            self.wf(),
        ensures
            self@.wf(),
    {
        self.session_manager.lemma_wf();
    }

    /// A client with the settings `config` that knows no peer, has no
    /// session, has received nothing and wants nothing.
    pub fn new(config: Config) -> (c: Self)
        ensures
            c.wf(),
            c@ == ClientView::initial(config),
    {
        Client {
            session_manager: SessionManager::new(QueueConfig::new()),
            counters: Stat::default(),
            config,
        }
    }

    fn session_config(&self) -> (c: SessionConfig)
        ensures
            c == session_config(self@.config),
    {
        SessionConfig {
            provider_search_delay: self.config.provider_search_delay,
            rebroadcast_delay: self.config.rebroadcast_delay,
            simulate_dont_haves_on_timeout: self.config.simluate_donthaves_on_timeout,
        }
    }

    /// Stops every session and every queue at time `now`.
    pub fn stop(&mut self, now: u64) -> (effects: Vec<Effect>)
        requires
            old(self).wf(),
        ensures
            final(self)@ == old(self)@.with(
                old(self)@.manager.stop_sessions(now).with_peers(
                    old(self)@.manager.stop_sessions(now).shared.peers.stop(),
                ),
            ),
            effects@ == old(self)@.manager.stop_sessions_effects(now),
            final(self).wf(),
    {
        self.session_manager.stop(now)
    }

    /// Makes a session and returns its identifier. Requests that belong
    /// together are best made in one session: it learns which peers are
    /// useful.
    pub fn new_session(&mut self) -> (id: u64)
        requires
            old(self).wf(),
            old(self)@.manager.next_id < u64::MAX,
        ensures
            id == old(self)@.manager.next_id,
            !old(self)@.manager.has_session(id),
            final(self)@ == old(self)@.with(
                old(self)@.manager.new_session(session_config(old(self)@.config)),
            ),
            final(self).wf(),
    {
        let config = self.session_config();
        self.session_manager.new_session(config)
    }

    /// Makes a session with a fresh identifier unless none is left.
    pub fn try_new_session(&mut self) -> (r: Option<u64>)
        requires
            old(self).wf(),
        ensures
            r is Some <==> old(self)@.manager.next_id < u64::MAX,
            r matches Some(id) ==> id == old(self)@.manager.next_id && final(self)@ == old(self)@.with(
                old(self)@.manager.new_session(session_config(old(self)@.config)),
            ),
            r is None ==> final(self)@ == old(self)@,
            final(self).wf(),
    {
        if self.session_manager.next_id() < u64::MAX {
            Some(self.new_session())
        } else {
            None
        }
    }

    /// Makes the session `session_id` unless it is there.
    pub fn get_or_create_session(&mut self, session_id: u64)
        requires
            old(self).wf(),
        ensures
            final(self)@ == old(self)@.with(
                old(self)@.manager.get_or_create_session(
                    session_id,
                    session_config(old(self)@.config),
                ),
            ),
            final(self)@.manager.has_session(session_id),
            final(self).wf(),
    {
        let config = self.session_config();
        self.session_manager.get_or_create_session(session_id, config)
    }

    /// Stops the session `session_id` at time `now`, if there is one. From
    /// now on no block is handed to its callers.
    pub fn stop_session(&mut self, session_id: u64, now: u64) -> (effects: Vec<Effect>)
        requires
            old(self).wf(),
        ensures
            final(self)@ == old(self)@.with(old(self)@.manager.stop_session(session_id, now)),
            effects@ == old(self)@.manager.stop_session_effects(session_id, now),
            !final(self)@.manager.has_session(session_id),
            final(self).wf(),
    {
        self.session_manager.stop_session(session_id, now)
    }

    /// Asks at time `now` for the blocks `keys` in the session
    /// `session_id`, which is made unless it is there. The blocks come as
    /// `Deliver` effects of later events.
    pub fn get_blocks_with_session_id(&mut self, session_id: u64, keys: &Vec<Cid>, now: u64) -> (effects:
        Vec<Effect>)
        requires
            old(self).wf(),
        ensures
            final(self)@ == old(self)@.with(
                old(self)@.manager.get_or_create_session(
                    session_id,
                    session_config(old(self)@.config),
                ).want_blocks(session_id, keys@, now),
            ),
            effects@ == old(self)@.manager.get_or_create_session(
                session_id,
                session_config(old(self)@.config),
            ).want_blocks_effects(session_id, keys@, now),
            final(self).wf(),
    {
        self.get_or_create_session(session_id);
        self.session_manager.want_blocks(session_id, keys, now)
    }

    /// Asks at time `now` for the block `key` in the session `session_id`,
    /// which is made unless it is there.
    pub fn get_block_with_session_id(&mut self, session_id: u64, key: &Cid, now: u64) -> (effects: Vec<
        Effect,
    >)
        requires
            old(self).wf(),
        ensures
            final(self)@ == old(self)@.with(
                old(self)@.manager.get_or_create_session(
                    session_id,
                    session_config(old(self)@.config),
                ).want_blocks(session_id, seq![*key], now),
            ),
            effects@ == old(self)@.manager.get_or_create_session(
                session_id,
                session_config(old(self)@.config),
            ).want_blocks_effects(session_id, seq![*key], now),
            final(self).wf(),
    {
        let mut keys: Vec<Cid> = Vec::new();
        keys.push(*key);
        assert(keys@ =~= seq![*key]);
        self.get_blocks_with_session_id(session_id, &keys, now)
    }

    /// Asks at time `now` for the blocks `keys` in a session of their own.
    /// Returns the session's identifier with what the driver has to do.
    pub fn get_blocks(&mut self, keys: &Vec<Cid>, now: u64) -> (r: (u64, Vec<Effect>))
        requires
            old(self).wf(),
            old(self)@.manager.next_id < u64::MAX,
        ensures
            r.0 == old(self)@.manager.next_id,
            final(self)@ == old(self)@.with(
                old(self)@.manager.new_session(session_config(old(self)@.config)).want_blocks(
                    r.0,
                    keys@,
                    now,
                ),
            ),
            r.1@ == old(self)@.manager.new_session(
                session_config(old(self)@.config),
            ).want_blocks_effects(r.0, keys@, now),
            final(self).wf(),
    {
        let id = self.new_session();
        let effects = self.session_manager.want_blocks(id, keys, now);
        (id, effects)
    }

    /// Whether an identifier is left for a new session.
    pub fn has_free_session_id(&self) -> (b: bool)
        ensures
            b == (self@.manager.next_id < u64::MAX),
    {
        self.session_manager.next_id() < u64::MAX
    }

    /// Ends at time `now` the single request that [`Client::get_block`]
    /// started in the session `session_id`, whether the block has come or
    /// the getter has given up: the session is stopped, what it still
    /// wanted is released, and the session is gone.
    pub fn finish_get_block(&mut self, session_id: u64, now: u64) -> (effects: Vec<Effect>)
        requires
            old(self).wf(),
        ensures
            final(self)@ == old(self)@.with(old(self)@.manager.stop_session(session_id, now)),
            effects@ == old(self)@.manager.stop_session_effects(session_id, now),
            !final(self)@.manager.has_session(session_id),
            final(self).wf(),
    {
        self.session_manager.stop_session(session_id, now)
    }

    /// Ends at time `now` every lookup of providers that has run for the
    /// allowed time; see
    /// [`crate::session_manager::SessionManager::expire_queries`].
    pub fn expire_lookups(&mut self, now: u64) -> (effects: Vec<Effect>)
        requires
            old(self).wf(),
        ensures
            final(self)@ == old(self)@.with(old(self)@.manager.expire_queries(now)),
            effects@ == old(self)@.manager.expire_queries_effects(now),
            final(self).wf(),
    {
        self.session_manager.expire_queries(now)
    }

    /// Asks at time `now` for the block `key` in a session of its own. The
    /// request ends with [`Client::finish_get_block`], when the block has
    /// come or the getter gives up.
    pub fn get_block(&mut self, key: &Cid, now: u64) -> (r: (u64, Vec<Effect>))
        requires
            old(self).wf(),
            old(self)@.manager.next_id < u64::MAX,
        ensures
            r.0 == old(self)@.manager.next_id,
            final(self)@ == old(self)@.with(
                old(self)@.manager.new_session(session_config(old(self)@.config)).want_blocks(
                    r.0,
                    seq![*key],
                    now,
                ),
            ),
            r.1@ == old(self)@.manager.new_session(
                session_config(old(self)@.config),
            ).want_blocks_effects(r.0, seq![*key], now),
            final(self).wf(),
    {
        let mut keys: Vec<Cid> = Vec::new();
        keys.push(*key);
        assert(keys@ =~= seq![*key]);
        self.get_blocks(&keys, now)
    }

    /// Takes note at time `now` that the callers of session `session_id`
    /// no longer wait for `keys`: a getter was given up. A want is taken
    /// back from the peers only where no other session wants the block.
    pub fn cancel_wants(&mut self, session_id: u64, keys: &Vec<Cid>, now: u64) -> (effects: Vec<Effect>)
        requires
            old(self).wf(),
        ensures
            final(self)@ == old(self)@.with(old(self)@.manager.cancel_wants(session_id, keys@, now)),
            effects@ == old(self)@.manager.cancel_wants_effects(session_id, keys@, now),
            final(self).wf(),
    {
        self.session_manager.cancel_wants(session_id, keys, now)
    }

    /// Tells the client at time `now` that `blocks` are in the local store.
    /// Every session that waits for one of them gets it.
    pub fn notify_new_blocks(&mut self, blocks: &Vec<Block>, now: u64) -> (effects: Vec<Effect>)
        requires
            old(self).wf(),
        ensures
            final(self)@ == old(self)@.with(
                old(self)@.manager.receive_from(
                    None,
                    block_cids(blocks@),
                    Seq::empty(),
                    Seq::empty(),
                    None,
                    now,
                ),
            ),
            effects@ == old(self)@.manager.receive_from_effects(
                None,
                block_cids(blocks@),
                Seq::empty(),
                Seq::empty(),
                None,
                now,
            ),
            final(self).wf(),
    {
        let cids = cids_of_blocks(blocks);
        let none: Vec<Cid> = Vec::new();
        self.session_manager.receive_from(None, &cids, &none, &none, None, now)
    }

    /// Counts `blocks` as received.
    fn update_receive_counters(&mut self, blocks: &Vec<Block>)
        ensures
            final(self).counters.counters() == counted(old(self).counters.counters(), blocks@),
            final(self).counters.wantlist == old(self).counters.wantlist,
            final(self).session_manager == old(self).session_manager,
            final(self).config == old(self).config,
    {
        let mut i: usize = 0;
        while i < blocks.len()
            invariant
                i <= blocks@.len(),
                self.counters.counters() == counted(
                    old(self).counters.counters(),
                    blocks@.subrange(0, i as int),
                ),
                self.counters.wantlist == old(self).counters.wantlist,
                self.session_manager == old(self).session_manager,
                self.config == old(self).config,
            decreases blocks@.len() - i,
        {
            assert(blocks@.subrange(0, i + 1).drop_last() =~= blocks@.subrange(0, i as int));
            let block_len = blocks[i].data.len();
            self.counters.blocks_received = saturating_add(self.counters.blocks_received, 1);
            self.counters.data_received = saturating_add(
                self.counters.data_received,
                block_len as u64,
            );
            i += 1;
        }
        assert(blocks@.subrange(0, blocks@.len() as int) =~= blocks@);
    }

    /// Takes in at time `now` the message `incoming` from `peer`. The
    /// message and its blocks are counted; what it says reaches the peer
    /// manager and every session that it concerns.
    pub fn receive_message(&mut self, peer: &PeerId, incoming: &BitswapMessage, now: u64) -> (received:
        Received)
        requires
            old(self).wf(),
        ensures
            final(self)@ == old(self)@.receive_message(
                *peer,
                incoming.blocks@,
                incoming.block_presences@,
                now,
            ),
            received.effects@ == old(self)@.routed_effects(
                *peer,
                incoming.blocks@,
                incoming.block_presences@,
                now,
            ),
            wanted_of(old(self)@.manager.shared.interest, incoming.blocks@, received.wanted@),
            final(self).wf(),
    {
        self.counters.messages_received = saturating_add(self.counters.messages_received, 1);
        if incoming.blocks_len() > 0 {
            self.update_receive_counters(incoming.blocks());
        }
        let haves = incoming.haves();
        let dont_haves = incoming.dont_haves();
        if incoming.blocks_len() > 0 || haves.len() > 0 || dont_haves.len() > 0 {
            self.receive_blocks_from(peer, incoming.blocks(), &haves, &dont_haves, now)
        } else {
            let split = self.session_manager.split_wanted_unwanted(incoming.blocks());
            Received { effects: Vec::new(), wanted: split.0 }
        }
    }

    /// Handles what came from `from` at time `now`.
    fn receive_blocks_from(
        &mut self,
        from: &PeerId,
        blocks: &Vec<Block>,
        haves: &Vec<Cid>,
        dont_haves: &Vec<Cid>,
        now: u64,
    ) -> (received: Received)
        requires
            old(self).wf(),
            blocks@.len() + haves@.len() + dont_haves@.len() > 0,
        ensures
            final(self)@.manager == old(self)@.manager.with_peers(
                old(self)@.manager.shared.peers.response_received(
                    *from,
                    block_cids(blocks@) + haves@ + dont_haves@,
                    now,
                ),
            ).receive_from(
                Some(*from),
                block_cids(blocks@),
                haves@,
                dont_haves@,
                old(self)@.manager.shared.peers.latency(
                    *from,
                    block_cids(blocks@) + haves@ + dont_haves@,
                    now,
                ),
                now,
            ),
            received.effects@ == old(self)@.manager.with_peers(
                old(self)@.manager.shared.peers.response_received(
                    *from,
                    block_cids(blocks@) + haves@ + dont_haves@,
                    now,
                ),
            ).receive_from_effects(
                Some(*from),
                block_cids(blocks@),
                haves@,
                dont_haves@,
                old(self)@.manager.shared.peers.latency(
                    *from,
                    block_cids(blocks@) + haves@ + dont_haves@,
                    now,
                ),
                now,
            ),
            wanted_of(old(self)@.manager.shared.interest, blocks@, received.wanted@),
            final(self)@.counters == old(self)@.counters,
            final(self)@.config == old(self)@.config,
            final(self).wf(),
    {
        let split = self.session_manager.split_wanted_unwanted(blocks);
        let all_keys = cids_of_blocks(blocks);
        let mut combined: Vec<Cid> = Vec::new();
        let mut a = copy_cids(&all_keys);
        combined.append(&mut a);
        let mut h = copy_cids(haves);
        combined.append(&mut h);
        let mut d = copy_cids(dont_haves);
        combined.append(&mut d);
        let latency = self.session_manager.response_received(from, &combined, now);
        let effects = self.session_manager.receive_from(
            Some(*from),
            &all_keys,
            haves,
            dont_haves,
            latency,
            now,
        );
        Received { effects, wanted: split.0 }
    }

    /// Takes note at time `now` that `peer` has connected.
    pub fn peer_connected(&mut self, peer: &PeerId, now: u64)
        requires
            old(self).wf(),
        ensures
            final(self)@ == old(self)@.with(old(self)@.manager.peer_connected(*peer, now)),
            final(self).wf(),
    {
        self.session_manager.peer_connected(peer, now)
    }

    /// Takes note at time `now` that `peer` has disconnected. Nothing is
    /// sent to the peer any more, and the other peers are asked about the
    /// blocks of which it had been told.
    pub fn peer_disconnected(&mut self, peer: &PeerId, now: u64)
        requires
            old(self).wf(),
        ensures
            final(self)@ == old(self)@.with(old(self)@.manager.peer_disconnected(*peer, now)),
            final(self).wf(),
    {
        self.session_manager.peer_disconnected(peer, now)
    }

    /// Everything that is wanted of any peer.
    pub fn get_wantlist(&self) -> (s: AHashSet<Cid>)
        requires
            self.wf(),
        ensures
            cid_set_contents(s) == self@.wantlist().to_set(),
    {
        self.session_manager.current_wants()
    }

    /// The blocks that some peer was asked to send.
    pub fn get_want_blocks(&self) -> (s: AHashSet<Cid>)
        requires
            self.wf(),
        ensures
            cid_set_contents(s) == all_blocks(self@.manager.shared.peers.wants.peers).to_set(),
    {
        self.session_manager.current_want_blocks()
    }

    /// The blocks of which some peer was asked whether it has them.
    pub fn get_want_haves(&self) -> (s: AHashSet<Cid>)
        requires
            self.wf(),
        ensures
            cid_set_contents(s) == all_haves(self@.manager.shared.peers.wants.peers).to_set(),
    {
        self.session_manager.current_want_haves()
    }

    /// The counts of what was received, and the blocks that are wanted,
    /// each once, in no stated order.
    pub fn stat(&self) -> (s: Stat)
        requires
            self.wf(),
        ensures
            s.counters() == self@.counters,
            s.wantlist@.no_duplicates(),
            s.wantlist@.to_set() == self@.wantlist().to_set(),
            s.wantlist@.len() == self@.wantlist().len(),
    {
        let wantlist = crate::cid_set::cid_set_into_vec(self.get_wantlist());
        proof {
            self.lemma_wf();
            let wants = self@.manager.shared.peers.wants;
            let some = union(wants.broadcast, all_blocks(wants.peers));
            crate::keyset::lemma_distinct(wants.broadcast, all_blocks(wants.peers));
            crate::keyset::lemma_distinct(some, all_haves(wants.peers));
            wantlist@.unique_seq_to_set();
            self@.wantlist().unique_seq_to_set();
        }
        Stat {
            wantlist,
            blocks_received: self.counters.blocks_received,
            data_received: self.counters.data_received,
            dup_blks_received: self.counters.dup_blks_received,
            dup_data_received: self.counters.dup_data_received,
            messages_received: self.counters.messages_received,
        }
    }

    /// The connected peers, in the order in which they connected.
    pub fn peers(&self) -> (v: Vec<PeerId>)
        ensures
            v@ == keys_of(self@.manager.shared.peers.wants.peers),
    {
        self.session_manager.peers()
    }

    /// Looks at every timer of every session at time `now`.
    pub fn tick(&mut self, now: u64) -> (effects: Vec<Effect>)
        requires
            old(self).wf(),
        ensures
            final(self)@ == old(self)@.with(old(self)@.manager.run_all(on_tick(now), now).step()),
            effects@ == old(self)@.manager.run_effects(on_tick(now), now),
            final(self).wf(),
    {
        self.session_manager.tick(now)
    }

    /// Asks for the next message to `peer` at time `now`. The driver sends
    /// it and reports the outcome with [`Client::send_complete`].
    pub fn poll(&mut self, peer: &PeerId, now: u64) -> (message: Option<Vec<Entry>>)
        requires
            old(self).wf(),
        ensures
            final(self)@ == old(self)@.with(
                old(self)@.manager.with_peers(old(self)@.manager.shared.peers.poll(*peer, now)),
            ),
            match message {
                Some(m) => old(self)@.manager.shared.peers.next_message(*peer, now) == Some(m@),
                None => old(self)@.manager.shared.peers.next_message(*peer, now) is None,
            },
            final(self).wf(),
    {
        self.session_manager.poll(peer, now)
    }

    /// Tells the client at time `now` how the sending of the last message
    /// to `peer` ended.
    pub fn send_complete(&mut self, peer: &PeerId, ok: bool, now: u64) -> (outcome: SendOutcome)
        requires
            old(self).wf(),
        ensures
            outcome == old(self)@.manager.shared.peers.outcome(*peer, ok),
            final(self)@ == old(self)@.with(old(self)@.manager.send_complete(*peer, ok, now)),
            final(self).wf(),
    {
        self.session_manager.send_complete(peer, ok, now)
    }

    /// Looks at time `now` at the wants of `peer` that were not answered
    /// in time, and at whether its open wants are due to be sent again.
    pub fn check_peer(&mut self, peer: &PeerId, now: u64) -> (effects: Vec<Effect>)
        requires
            old(self).wf(),
        ensures
            final(self)@ == old(self)@.with(
                old(self)@.manager.check_timeouts(
                    *peer,
                    old(self)@.config.simluate_donthaves_on_timeout,
                    now,
                ).with_peers(
                    old(self)@.manager.check_timeouts(
                        *peer,
                        old(self)@.config.simluate_donthaves_on_timeout,
                            now,
                    ).shared.peers.rebroadcast(*peer, now),
                ),
            ),
            effects@ == old(self)@.manager.check_timeouts_effects(
                *peer,
                old(self)@.config.simluate_donthaves_on_timeout,
                now,
            ),
            final(self).wf(),
    {
        let simulate = self.config.simluate_donthaves_on_timeout;
        let effects = self.session_manager.check_timeouts(peer, simulate, now);
        self.session_manager.rebroadcast(peer, now);
        effects
    }

    /// Takes note at time `now` that a lookup has found `peer` as a
    /// provider of `cid`.
    pub fn provider_found(&mut self, cid: &Cid, peer: &PeerId, now: u64) -> (effects: Vec<Effect>)
        requires
            old(self).wf(),
        ensures
            final(self)@ == old(self)@.with(old(self)@.manager.provider_found(*cid, *peer, now)),
            effects@ == old(self)@.manager.provider_found_effects(*cid, *peer, now),
            final(self).wf(),
    {
        self.session_manager.provider_found(cid, peer, now)
    }

    /// Takes note at time `now` that the lookup of providers of `cid` has
    /// ended. Returns the block of the lookup to start in its place, if one
    /// waited.
    pub fn provider_query_finished(&mut self, cid: &Cid, now: u64) -> (start: Option<Cid>)
        requires
            old(self).wf(),
        ensures
            final(self)@ == old(self)@.with(old(self)@.manager.provider_query_finished(*cid, now)),
            start == old(self)@.manager.next_query(*cid),
            final(self).wf(),
    {
        self.session_manager.provider_query_finished(cid, now)
    }
}

/// Every block that a message makes the client hand out is a block of that
/// message, and goes to a session that there is and that waited for it.
/// That the bytes of a block hash to its identifier is the sender's word;
/// the client hands on what it was given under the identifier it was given.
pub proof fn lemma_delivered_blocks_were_asked_for(
    c: ClientView,
    peer: PeerId,
    blocks: Seq<Block>,
    presences: Seq<BlockPresence>,
    now: u64,
    e: Effect,
) -> (j: int)
    requires
        c.manager.sessions_wf(),
        c.routed_effects(peer, blocks, presences, now).contains(e),
        e is Deliver,
    ensures
        0 <= j < c.manager.sessions.len(),
        c.manager.sessions[j].id == e->session,
        c.manager.sessions[j].wanted.contains(e->Deliver_cid),
        block_cids(blocks).contains(e->Deliver_cid),
{
    let keys = ClientView::keys(blocks, presences);
    if keys.len() == 0 {
        let none = c.routed_effects(peer, blocks, presences, now);
        let i = choose|i: int| 0 <= i < none.len() && none[i] == e;
        0
    } else {
        let m = c.manager.with_peers(c.manager.shared.peers.response_received(peer, keys, now));
        crate::session_manager::lemma_message_deliveries(
            m,
            Some(peer),
            block_cids(blocks),
            presences_of(presences, BlockPresenceType::Have),
            presences_of(presences, BlockPresenceType::DontHave),
            c.manager.shared.peers.latency(peer, keys, now),
            now,
            e,
        )
    }
}

/// A block that is announced as new reaches every getter that waits for
/// it: a session that waits for the block has it handed to its callers, and
/// waits for it no longer.
pub proof fn lemma_new_blocks_reach_waiting_getters(c: ClientView, blocks: Seq<Block>, now: u64, j: int, cid: Cid)
    requires
        c.manager.sessions_wf(),
        0 <= j < c.manager.sessions.len(),
        c.manager.sessions[j].wanted.contains(cid),
        block_cids(blocks).contains(cid),
    ensures
        c.manager.receive_from_effects(
            None,
            block_cids(blocks),
            Seq::empty(),
            Seq::empty(),
            None,
            now,
        ).contains(Effect::Deliver { session: c.manager.sessions[j].id, cid }),
        !c.manager.receive_from(
            None,
            block_cids(blocks),
            Seq::empty(),
            Seq::empty(),
            None,
            now,
        ).sessions[j].wanted.contains(cid),
{
    crate::session_manager::lemma_wanted_block_is_delivered(
        c.manager,
        None,
        block_cids(blocks),
        Seq::empty(),
        Seq::empty(),
        None,
        now,
        j,
        cid,
    );
}

/// A new client wants nothing, has received nothing, and has no session,
/// no peer and no lookup.
pub proof fn lemma_new_client(config: Config)
    ensures
        ClientView::initial(config).wf(),
        ClientView::initial(config).wantlist() == Seq::<Cid>::empty(),
        ClientView::initial(config).manager.sessions.len() == 0,
        ClientView::initial(config).manager.shared.peers.peers.len() == 0,
        ClientView::initial(config).manager.shared.queries.active.len() == 0,
        ClientView::initial(config).config == config,
{
    let c = ClientView::initial(config);
    assert(ids_of(c.manager.sessions) =~= Seq::<u64>::empty());
    assert(keys_of(c.manager.shared.interest) =~= Seq::<u64>::empty());
    assert(keys_of(c.manager.shared.presences) =~= Seq::<PeerId>::empty());
    assert(keys_of(c.manager.shared.peers.wants.peers) =~= Seq::<PeerId>::empty());
    assert(keys_of(c.manager.shared.queries.active) =~= Seq::<Cid>::empty());
}

/// After a peer has disconnected, the client sends nothing to it and has
/// the other peers cover for it: the peer is not connected, no message is
/// made for it at any later time, and every remaining peer has been told
/// of each block of which the lost peer had been told. Where a remaining
/// peer had been told nothing of such a block, the want for it waits in
/// that peer's queue as soon as the event is over.
pub proof fn lemma_nothing_goes_to_a_lost_peer(c: ClientView, peer: PeerId, now: u64, later: u64, i: int, cid: Cid)
    requires
        c.wf(),
        c.manager.shared.peers.is_connected(peer),
    ensures
        ({
            let after = c.with(c.manager.peer_disconnected(peer, now)).manager.shared.peers;
            &&& !after.is_connected(peer)
            &&& after.next_message(peer, later) is None
            &&& after.peers.len() == c.manager.shared.peers.peers.len() - 1
            &&& 0 <= i < after.peers.len() && crate::peer_want_manager::told_peer(
                c.manager.shared.peers.wants,
                peer,
                cid,
            ) is Some ==> crate::peer_want_manager::told(after.wants.peers[i].1, cid) is Some
            &&& 0 <= i < after.peers.len() && crate::peer_want_manager::told_peer(
                c.manager.shared.peers.wants,
                peer,
                cid,
            ) is Some && crate::peer_manager::covers_anew(c.manager.shared.peers, peer, i, cid)
                ==> crate::wantlist::entry_of(after.peers[i].queue.pending, cid) is Some
        }),
{
    crate::session_manager::lemma_peer_disconnected(c.manager, peer, now);
    crate::peer_manager::lemma_disconnected(
        c.manager.shared.peers,
        peer,
        c.manager.priority,
        now,
        later,
        i,
        cid,
    );
}

/// Lookups of providers stay within their bound, and no block has two:
/// in every state of a client no more lookups run than may, no lookup runs
/// or waits twice, and none waits while another could run. The events
/// that a message, a timer or a found provider brings do not change the
/// bound.
pub proof fn lemma_lookups_are_bounded(c: ClientView, h: crate::session_manager::Handler, now: u64)
    requires
        c.wf(),
    ensures
        c.manager.shared.queries.active.len() <= c.manager.shared.queries.max_active,
        keys_of(c.manager.shared.queries.active).no_duplicates(),
        c.manager.shared.queries.queued.no_duplicates(),
        c.manager.shared.queries.queued.len() > 0 ==> c.manager.shared.queries.active.len()
            == c.manager.shared.queries.max_active,
        c.manager.run_all(h, now).shared.queries.max_active
            == c.manager.shared.queries.max_active,
        c.manager.expire_queries(now).shared.queries.max_active
            == c.manager.shared.queries.max_active,
        ClientView::initial(c.config).manager.shared.queries.max_active
            == crate::provider_query_manager::DEFAULT_MAX_QUERIES,
{
    crate::session_manager::lemma_run_keeps_bounds(
        c.manager,
        c.manager.sessions.len() as int,
        h,
        now,
    );
    lemma_finish_all_keeps_bound(
        c.manager.shared.queries,
        c.manager.shared.queries.overdue(now),
        now,
    );
}

/// Ending lookups does not change how many may run.
proof fn lemma_finish_all_keeps_bound(q: crate::provider_query_manager::QueriesView, late: Seq<Cid>, now: u64)
    ensures
        q.finish_all(late, now).max_active == q.max_active,
    decreases late.len(),
{
    if late.len() > 0 {
        lemma_finish_all_keeps_bound(q, late.drop_last(), now);
    }
}

/// A message about a block for which no getter waits makes the client ask
/// nothing about it. After a block was cancelled or has come, a late have
/// for it leads to no want: what a peer counts as told of the block after
/// the message, if anything, is what it was told before.
pub proof fn lemma_late_answers_ask_nothing(
    c: ClientView,
    peer: PeerId,
    blocks: Seq<Block>,
    presences: Seq<BlockPresence>,
    now: u64,
    p: PeerId,
    cid: Cid,
)
    requires
        crate::session_manager::wanted_by_nobody(c.manager, cid),
    ensures
        crate::peer_want_manager::asked_nothing_new(
            c.manager.shared.peers.wants,
            c.receive_message(peer, blocks, presences, now).manager.shared.peers.wants,
            p,
            cid,
        ),
{
    let keys = ClientView::keys(blocks, presences);
    if keys.len() > 0 {
        let m = c.manager.with_peers(c.manager.shared.peers.response_received(peer, keys, now));
        assert(m.shared.peers.wants == c.manager.shared.peers.wants);
        assert(crate::session_manager::wanted_by_nobody(m, cid)) by {
            assert forall|j: int| 0 <= j < m.sessions.len() implies !(
            #[trigger] m.sessions[j]).wanted.contains(cid) by {
                assert(m.sessions[j] == c.manager.sessions[j]);
            }
        }
        crate::session_manager::lemma_unwanted_block_asks_nothing(
            m,
            Some(peer),
            block_cids(blocks),
            presences_of(presences, BlockPresenceType::Have),
            presences_of(presences, BlockPresenceType::DontHave),
            c.manager.shared.peers.latency(peer, keys, now),
            now,
            p,
            cid,
        );
    }
}

/// A request that ends takes its wants back. When the session that is the
/// only one to wait for a block is stopped, as at the end of a single
/// request, no peer counts as told of the block afterwards: nothing more
/// is asked about it until it is wanted anew. Another session that waits
/// for the block keeps the wants alive; that case is left out here.
pub proof fn lemma_finished_request_wants_nothing(c: ClientView, j: int, now: u64, p: PeerId, cid: Cid)
    requires
        c.wf(),
        crate::session_manager::sole_getter(c.manager, j, cid),
    ensures
        crate::peer_want_manager::told_peer(
            c.with(c.manager.stop_session(c.manager.sessions[j].id, now)).manager.shared.peers.wants,
            p,
            cid,
        ) is None,
        !c.with(c.manager.stop_session(c.manager.sessions[j].id, now)).manager.has_session(
            c.manager.sessions[j].id,
        ),
{
    crate::session_manager::lemma_stop_takes_wants_back(c.manager, j, now, p, cid);
    crate::session_manager::lemma_stopped_session_is_gone(c.manager, j, now);
}

/// A block that is announced is asked of nobody any more. When a block is
/// announced as new while one getter waits for it, the getter has it
/// handed over, waits for it no longer, and no peer counts as told of the
/// block afterwards: a want for it that had not gone out yet never goes
/// out.
pub proof fn lemma_announced_block_is_asked_of_nobody(
    c: ClientView,
    blocks: Seq<Block>,
    now: u64,
    j: int,
    p: PeerId,
    cid: Cid,
)
    requires
        c.wf(),
        crate::session_manager::sole_getter(c.manager, j, cid),
        block_cids(blocks).contains(cid),
    ensures
        ({
            let after = c.manager.receive_from(
                None,
                block_cids(blocks),
                Seq::empty(),
                Seq::empty(),
                None,
                now,
            );
            &&& crate::peer_want_manager::told_peer(after.shared.peers.wants, p, cid) is None
            &&& !after.sessions[j].wanted.contains(cid)
            &&& c.manager.receive_from_effects(
                None,
                block_cids(blocks),
                Seq::empty(),
                Seq::empty(),
                None,
                now,
            ).contains(Effect::Deliver { session: c.manager.sessions[j].id, cid })
        }),
{
    crate::session_manager::lemma_arrived_block_is_asked_of_nobody(
        c.manager,
        j,
        None,
        block_cids(blocks),
        Seq::empty(),
        Seq::empty(),
        None,
        now,
        p,
        cid,
    );
    crate::session_manager::lemma_wanted_block_is_delivered(
        c.manager,
        None,
        block_cids(blocks),
        Seq::empty(),
        Seq::empty(),
        None,
        now,
        j,
        cid,
    );
}

/// A copy of `cids`.
fn copy_cids(cids: &Vec<Cid>) -> (v: Vec<Cid>)
    ensures
        v@ == cids@,
{
    let mut v: Vec<Cid> = Vec::new();
    let mut i: usize = 0;
    while i < cids.len()
        invariant
            i <= cids@.len(),
            v@ == cids@.subrange(0, i as int),
        decreases cids@.len() - i,
    {
        v.push(cids[i]);
        assert(cids@.subrange(0, i + 1) == cids@.subrange(0, i as int).push(cids@[i as int]));
        i += 1;
    }
    assert(cids@.subrange(0, cids@.len() as int) == cids@);
    v
}

} // verus!
