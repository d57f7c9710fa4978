//! One session: a group of related block requests that learns which peers
//! are useful.
//!
//! A session is a state machine. Each event (blocks wanted, a message
//! received, a timer, a peer discovered, a stop) changes the session's own
//! state and yields commands for the parts it shares with other sessions:
//! the peer manager, the interest index and the provider lookups. The
//! session manager carries the commands out.

use crate::block_presence_manager::{presence, BlockPresenceManager};
use crate::ident::{Cid, Key, PeerId};
use crate::keymap::{keys_of, lemma_filter_keys, lookup, with_entry, KeyMap};
use crate::keyset::{difference, intersection, lemma_difference, lemma_filter_ends, lemma_filter_next, lemma_filter_no_duplicates, lemma_news, lemma_union, news, retain_in, retain_in_vec, union, vec_contains, KeySet};
use crate::message_queue::{sat_add, saturating_add};
use crate::session_peer_manager::{answered, fresh, peer_entry, peers_of, with_peer, SessionPeer, SessionPeerManager};
use vstd::prelude::*;

verus! {

/// The delay of the first idle tick, in milliseconds.
pub const BASE_TICK_DELAY: u64 = 1000;

/// The longest delay between idle ticks, in milliseconds.
pub const MAX_TICK_DELAY: u64 = 60000;

/// After how many idle ticks without progress a session goes back to
/// looking for peers.
pub const STALLED_TICKS: u32 = 4;

/// How many peers are asked for a block that no peer is known to have.
pub const FALLBACK_PEERS: usize = 2;

/// What is added to three round trips to give a peer's time to send a block,
/// in milliseconds.
pub const WATCHDOG_SLACK: u64 = 1000;

/// The delay before providers are looked up, in milliseconds, unless the
/// caller says otherwise.
pub const DEFAULT_PROVIDER_SEARCH_DELAY: u64 = 1000;

/// The delay between two broad rounds of want-haves, in milliseconds, unless
/// the caller says otherwise.
pub const DEFAULT_REBROADCAST_DELAY: u64 = 60000;

/// The settings of a session. Times are in milliseconds.
#[derive(Clone, Copy, PartialEq, Eq, Structural, Debug)]
pub struct SessionConfig {
    pub provider_search_delay: u64,
    pub rebroadcast_delay: u64,
    pub simulate_dont_haves_on_timeout: bool,
}

/// Where a session stands.
#[derive(Clone, Copy, PartialEq, Eq, Structural, Debug)]
pub enum Phase {
    /// No peer has answered yet, or none for a long time: want-haves go to
    /// every peer and providers are looked up.
    Discovery,
    /// Some peer has answered: blocks are asked of chosen peers.
    Steady,
}

/// A want-block that was sent: the block and the peer that was asked.
#[derive(Clone, Copy, PartialEq, Eq, Structural, Debug)]
pub struct Flight {
    pub cid: Cid,
    pub peer: PeerId,
}

impl Key for Flight {
    fn same(&self, other: &Self) -> (r: bool) {
        *self == *other
    }
}

/// What a session asks the session manager to do.
#[derive(Clone, Copy, PartialEq, Eq, Structural, Debug)]
pub enum Command {
    /// Ask every connected peer whether it has the block.
    BroadcastWantHave { cid: Cid },
    /// Ask every connected peer to send the block.
    BroadcastWantBlock { cid: Cid },
    /// Ask one peer to send the block.
    WantBlock { peer: PeerId, cid: Cid },
    /// Ask one peer whether it has the block.
    WantHave { peer: PeerId, cid: Cid },
    /// The session no longer wants the block.
    Release { cid: Cid },
    /// Hand the block that has arrived to the callers of the session.
    Deliver { cid: Cid },
    /// Look up providers of the block.
    FindProviders { cid: Cid },
    /// Connect to the peer.
    Connect { peer: PeerId },
}

/// The delay before the idle tick that follows `n` ticks without progress:
/// the base delay grown by half `n` times, and at most a minute. Each growth
/// is rounded down to whole milliseconds.
pub open spec fn tick_delay(n: nat) -> nat
    decreases n,
{
    if n == 0 {
        BASE_TICK_DELAY as nat
    } else if tick_delay((n - 1) as nat) * 3 / 2 > MAX_TICK_DELAY {
        MAX_TICK_DELAY as nat
    } else {
        tick_delay((n - 1) as nat) * 3 / 2
    }
}

/// A peer's time to send a block it was asked for: three round trips and a
/// second.
pub open spec fn watchdog_delay(rtt: u64) -> u64 {
    sat_add(sat_add(sat_add(rtt, rtt), rtt), WATCHDOG_SLACK)
}

/// Whether a want-block for `cid` is under way to any peer.
pub open spec fn in_flight_for(flights: Seq<(Flight, u64)>, cid: Cid) -> bool {
    exists|i: int| 0 <= i < flights.len() && (#[trigger] flights[i]).0.cid == cid
}

/// Whether `peer` was asked for `cid` by this session: a want-block is under
/// way to it, or it has declined.
pub open spec fn was_asked(flights: Seq<(Flight, u64)>, declined: Seq<Flight>, cid: Cid, peer: PeerId) -> bool {
    keys_of(flights).contains(Flight { cid, peer }) || declined.contains(Flight { cid, peer })
}

/// Whether every one of `peers` has declined `cid`, and there is a peer at
/// all.
pub open spec fn all_declined(declined: Seq<Flight>, peers: Seq<PeerId>, cid: Cid) -> bool {
    peers.len() > 0 && forall|i: int|
        0 <= i < peers.len() ==> declined.contains(Flight { cid, peer: #[trigger] peers[i] })
}

/// The delay before the idle tick that follows `n` ticks without progress.
pub fn tick_delay_after(n: u32) -> (d: u64)
    ensures
        d == tick_delay(n as nat),
        BASE_TICK_DELAY <= d <= MAX_TICK_DELAY,
{
    let mut d: u64 = BASE_TICK_DELAY;
    let mut i: u32 = 0;
    while i < n
        invariant
            i <= n,
            d == tick_delay(i as nat),
            BASE_TICK_DELAY <= d <= MAX_TICK_DELAY,
        decreases n - i,
    {
        let grown = d * 3 / 2;
        if grown > MAX_TICK_DELAY {
            d = MAX_TICK_DELAY;
        } else {
            d = grown;
        }
        i += 1;
    }
    d
}

/// A peer's time to send a block it was asked for.
pub fn watchdog(rtt: u64) -> (d: u64)
    ensures
        d == watchdog_delay(rtt),
{
    saturating_add(saturating_add(saturating_add(rtt, rtt), rtt), WATCHDOG_SLACK)
}

impl SessionConfig {
    /// The settings that are used unless the caller says otherwise.
    pub fn new() -> (c: SessionConfig)
        ensures
            c.provider_search_delay == DEFAULT_PROVIDER_SEARCH_DELAY,
            c.rebroadcast_delay == DEFAULT_REBROADCAST_DELAY,
            c.simulate_dont_haves_on_timeout,
    {
        SessionConfig {
            provider_search_delay: DEFAULT_PROVIDER_SEARCH_DELAY,
            rebroadcast_delay: DEFAULT_REBROADCAST_DELAY,
            simulate_dont_haves_on_timeout: true,
        }
    }
}

/// The want-blocks under way after `peer` said that it has `haves`: for
/// each of them in turn that is wanted and under way from no peer, a
/// want-block to `peer` sent at `now` is added.
pub open spec fn ask_holder(
    flights: Seq<(Flight, u64)>,
    wanted: Seq<Cid>,
    peer: PeerId,
    haves: Seq<Cid>,
    now: u64,
) -> Seq<(Flight, u64)>
    decreases haves.len(),
{
    if haves.len() == 0 {
        flights
    } else {
        let r = ask_holder(flights, wanted, peer, haves.drop_last(), now);
        if wanted.contains(haves.last()) && !in_flight_for(r, haves.last()) {
            with_entry(r, Flight { cid: haves.last(), peer }, now)
        } else {
            r
        }
    }
}

/// The want-blocks that go to `peer` after it said that it has `haves`.
pub open spec fn ask_holder_commands(
    flights: Seq<(Flight, u64)>,
    wanted: Seq<Cid>,
    peer: PeerId,
    haves: Seq<Cid>,
    now: u64,
) -> Seq<Command>
    decreases haves.len(),
{
    if haves.len() == 0 {
        Seq::empty()
    } else {
        let r = ask_holder(flights, wanted, peer, haves.drop_last(), now);
        let c = ask_holder_commands(flights, wanted, peer, haves.drop_last(), now);
        if wanted.contains(haves.last()) && !in_flight_for(r, haves.last()) {
            c.push(Command::WantBlock { peer, cid: haves.last() })
        } else {
            c
        }
    }
}

/// The first `n` items of `s`, or all of them where there are fewer.
pub open spec fn first_n<A>(s: Seq<A>, n: int) -> Seq<A> {
    if s.len() <= n {
        s
    } else {
        s.subrange(0, n)
    }
}

/// The candidates that this session has not asked for `cid`.
pub open spec fn unasked(
    candidates: Seq<PeerId>,
    flights: Seq<(Flight, u64)>,
    declined: Seq<Flight>,
    cid: Cid,
) -> Seq<PeerId> {
    candidates.filter(|p: PeerId| !was_asked(flights, declined, cid, p))
}

/// The peers that are asked to send `cid`: of the candidates not asked yet,
/// the fastest that is known to have the block; where none is known to have
/// it, the two fastest that are not known to lack it.
pub open spec fn block_peers(
    m: crate::block_presence_manager::Presences,
    candidates: Seq<PeerId>,
    flights: Seq<(Flight, u64)>,
    declined: Seq<Flight>,
    cid: Cid,
) -> Seq<PeerId> {
    let u = unasked(candidates, flights, declined, cid);
    let holders = u.filter(|p: PeerId| presence(m, p, cid) == Some(true));
    if holders.len() > 0 {
        seq![holders[0]]
    } else {
        first_n(u.filter(|p: PeerId| presence(m, p, cid) != Some(false)), FALLBACK_PEERS as int)
    }
}

/// The peers that are asked whether they have `cid`: the candidates not
/// asked yet that are not asked to send it.
pub open spec fn have_peers(
    m: crate::block_presence_manager::Presences,
    candidates: Seq<PeerId>,
    flights: Seq<(Flight, u64)>,
    declined: Seq<Flight>,
    cid: Cid,
) -> Seq<PeerId> {
    let chosen = block_peers(m, candidates, flights, declined, cid);
    unasked(candidates, flights, declined, cid).filter(|p: PeerId| !chosen.contains(p))
}

/// The want-blocks under way after the session has gone through `cids` at
/// time `now` and asked chosen peers for each block that was under way from
/// no peer.
pub open spec fn asked_on_tick(
    m: crate::block_presence_manager::Presences,
    candidates: Seq<PeerId>,
    flights: Seq<(Flight, u64)>,
    declined: Seq<Flight>,
    cids: Seq<Cid>,
    now: u64,
) -> Seq<(Flight, u64)>
    decreases cids.len(),
{
    if cids.len() == 0 {
        flights
    } else {
        let r = asked_on_tick(m, candidates, flights, declined, cids.drop_last(), now);
        let c = cids.last();
        if in_flight_for(r, c) {
            r
        } else {
            crate::keymap::with_entries(
                r,
                block_peers(m, candidates, r, declined, c).map_values(
                    |p: PeerId| Flight { cid: c, peer: p },
                ),
                now,
            )
        }
    }
}

/// What the session asks for while it goes through `cids`: for each block
/// that is under way from no peer, a want-block to each chosen peer and a
/// want-have to each other candidate not asked yet.
pub open spec fn tick_commands(
    m: crate::block_presence_manager::Presences,
    candidates: Seq<PeerId>,
    flights: Seq<(Flight, u64)>,
    declined: Seq<Flight>,
    cids: Seq<Cid>,
    now: u64,
) -> Seq<Command>
    decreases cids.len(),
{
    if cids.len() == 0 {
        Seq::empty()
    } else {
        let r = asked_on_tick(m, candidates, flights, declined, cids.drop_last(), now);
        let before = tick_commands(m, candidates, flights, declined, cids.drop_last(), now);
        let c = cids.last();
        if in_flight_for(r, c) {
            before
        } else {
            before + block_peers(m, candidates, r, declined, c).map_values(
                |p: PeerId| Command::WantBlock { peer: p, cid: c },
            ) + have_peers(m, candidates, r, declined, c).map_values(
                |p: PeerId| Command::WantHave { peer: p, cid: c },
            )
        }
    }
}

/// The smoothed round-trip time of `peer`; zero where none is known.
pub open spec fn rtt_of(peers: Seq<SessionPeer>, peer: PeerId) -> u64 {
    match peer_entry(peers, peer) {
        Some(e) => e.rtt_ewma,
        None => 0,
    }
}

/// Whether the peer of a want-block has had its time to send the block at
/// `now`.
pub open spec fn overdue(peers: Seq<SessionPeer>, e: (Flight, u64), now: u64) -> bool {
    now >= sat_add(e.1, watchdog_delay(rtt_of(peers, e.0.peer)))
}

/// The whole state of a session. Times are in milliseconds.
pub ghost struct SessionView {
    pub id: u64,
    pub config: SessionConfig,
    pub phase: Phase,
    /// Whether the session was stopped. A stopped session takes nothing in
    /// and gives nothing out.
    pub stopped: bool,
    /// The blocks that callers wait for, in the order in which they were
    /// asked for.
    pub wanted: Seq<Cid>,
    /// The wanted blocks for which a want has gone out.
    pub live: Seq<Cid>,
    /// The candidate peers, fastest first.
    pub peers: Seq<SessionPeer>,
    /// Whether any peer was ever a candidate.
    pub discovered: bool,
    /// The want-blocks that are under way, each with the time at which it
    /// was sent.
    pub in_flight: Seq<(Flight, u64)>,
    /// The peers that have said, or are taken to have said, that they lack a
    /// block.
    pub declined: Seq<Flight>,
    /// How many idle ticks have passed without a block.
    pub consecutive_ticks: u32,
    /// When the next idle tick is due.
    pub next_tick_at: u64,
    /// Whether a lookup of providers is due at `search_at`.
    pub search_armed: bool,
    pub search_at: u64,
    /// When the next broad round of want-haves is due.
    pub rebroadcast_at: u64,
}

/// The commands that `make` gives for each of `cids`, in order.
pub open spec fn for_each(cids: Seq<Cid>, make: spec_fn(Cid) -> Command) -> Seq<Command> {
    cids.map_values(make)
}

impl SessionView {
    /// The state is in order: nothing is wanted twice, what is live is
    /// wanted, the peers stand by speed, and a stopped session wants
    /// nothing.
    pub open spec fn wf(self) -> bool {
        &&& self.wanted.no_duplicates()
        &&& self.live.no_duplicates()
        &&& forall|c: Cid| self.live.contains(c) ==> self.wanted.contains(c)
        &&& crate::session_peer_manager::well_formed(self.peers)
        &&& keys_of(self.in_flight).no_duplicates()
        &&& self.declined.no_duplicates()
        &&& self.stopped ==> self.wanted.len() == 0
    }

    /// The state after the callers asked for `cids` at time `now`.
    pub open spec fn want_blocks(self, cids: Seq<Cid>, now: u64) -> SessionView {
        let fresh = news(self.wanted, cids);
        let idle = self.wanted.len() == 0;
        let arm = !self.search_armed && self.phase is Discovery && fresh.len() > 0;
        if self.stopped {
            self
        } else {
            SessionView {
                wanted: union(self.wanted, cids),
                live: union(self.live, fresh),
                consecutive_ticks: if idle {
                    0
                } else {
                    self.consecutive_ticks
                },
                next_tick_at: if idle {
                    sat_add(now, BASE_TICK_DELAY)
                } else {
                    self.next_tick_at
                },
                rebroadcast_at: if idle {
                    sat_add(now, self.config.rebroadcast_delay)
                } else {
                    self.rebroadcast_at
                },
                search_armed: self.search_armed || arm,
                search_at: if arm {
                    sat_add(now, self.config.provider_search_delay)
                } else {
                    self.search_at
                },
                ..self
            }
        }
    }

    /// What the session asks for when the callers ask for `cids`: a
    /// want-have to every peer for each block that was not wanted before.
    pub open spec fn want_blocks_commands(self, cids: Seq<Cid>) -> Seq<Command> {
        if self.stopped {
            Seq::empty()
        } else {
            for_each(news(self.wanted, cids), |c: Cid| Command::BroadcastWantHave { cid: c })
        }
    }

    /// The state after a provider lookup found `peer`.
    pub open spec fn add_discovered_peer(self, peer: PeerId) -> SessionView {
        if self.stopped {
            self
        } else {
            SessionView {
                peers: if peers_of(self.peers).contains(peer) {
                    self.peers
                } else {
                    self.peers.push(fresh(peer))
                },
                discovered: true,
                ..self
            }
        }
    }

    /// What the session asks for when a provider lookup found `peer`: to
    /// connect to it, and to ask it about every wanted block.
    pub open spec fn add_discovered_peer_commands(self, peer: PeerId) -> Seq<Command> {
        if self.stopped {
            Seq::empty()
        } else {
            seq![Command::Connect { peer }] + for_each(
                self.wanted,
                |c: Cid| Command::WantHave { peer, cid: c },
            )
        }
    }

    /// The wanted blocks among `blocks`, in the order in which they were
    /// asked for.
    pub open spec fn arrived(self, blocks: Seq<Cid>) -> Seq<Cid> {
        intersection(self.wanted, blocks)
    }

    /// Whether a message with these blocks, haves and dont-haves says
    /// anything about a block that the session wants.
    pub open spec fn relevant(self, blocks: Seq<Cid>, haves: Seq<Cid>, dont_haves: Seq<Cid>) -> bool {
        intersection(self.wanted, blocks).len() > 0 || intersection(haves, self.wanted).len() > 0
            || intersection(dont_haves, self.wanted).len() > 0
    }

    /// The state after `blocks` arrived at time `now`: they are wanted no
    /// longer, and nothing is remembered of having asked for them. A wanted
    /// block that arrives counts as progress.
    pub open spec fn take_blocks(self, blocks: Seq<Cid>, now: u64) -> SessionView {
        let progress = self.arrived(blocks).len() > 0;
        SessionView {
            wanted: difference(self.wanted, blocks),
            live: difference(self.live, blocks),
            in_flight: self.in_flight.filter(|e: (Flight, u64)| !blocks.contains(e.0.cid)),
            declined: self.declined.filter(|f: Flight| !blocks.contains(f.cid)),
            consecutive_ticks: if progress {
                0
            } else {
                self.consecutive_ticks
            },
            next_tick_at: if progress {
                sat_add(now, BASE_TICK_DELAY)
            } else {
                self.next_tick_at
            },
            ..self
        }
    }

    /// The candidates with `peer` among them.
    pub open spec fn candidates_with(self, peer: PeerId) -> Seq<SessionPeer> {
        if peers_of(self.peers).contains(peer) {
            self.peers
        } else {
            self.peers.push(fresh(peer))
        }
    }

    /// The state after `peer` answered at time `now`, `latency` milliseconds
    /// after it was asked, where that was measured: the peer is a useful
    /// candidate, and the session asks chosen peers from now on.
    pub open spec fn note_peer(self, peer: PeerId, latency: Option<u64>, now: u64) -> SessionView {
        let with = self.candidates_with(peer);
        let known = peer_entry(with, peer).unwrap();
        let sample = match latency {
            Some(l) => l,
            None => known.rtt_ewma,
        };
        SessionView {
            peers: with_peer(with, answered(known, now, sample)),
            discovered: true,
            phase: Phase::Steady,
            ..self
        }
    }

    /// The dont-haves that concern the session, as refusals of `peer`.
    pub open spec fn refusals(self, peer: PeerId, dont_haves: Seq<Cid>) -> Seq<Flight> {
        intersection(dont_haves, self.wanted).map_values(|c: Cid| Flight { cid: c, peer })
    }

    /// The state after `peer` said that it lacks `dont_haves`.
    pub open spec fn take_refusals(self, peer: PeerId, dont_haves: Seq<Cid>) -> SessionView {
        SessionView {
            in_flight: crate::keymap::without_entries(self.in_flight, self.refusals(peer, dont_haves)),
            declined: union(self.declined, self.refusals(peer, dont_haves)),
            ..self
        }
    }

    /// The blocks among `cids`, in order, that every candidate has declined.
    pub open spec fn hopeless(self, cids: Seq<Cid>) -> Seq<Cid> {
        cids.filter(|c: Cid| all_declined(self.declined, peers_of(self.peers), c))
    }

    /// The state after a message from `from` was received at time `now`
    /// that holds `blocks` and says that its sender has `haves` and lacks
    /// `dont_haves`. Blocks that come from the local store have no sender.
    pub open spec fn receive_from(
        self,
        from: Option<PeerId>,
        blocks: Seq<Cid>,
        haves: Seq<Cid>,
        dont_haves: Seq<Cid>,
        latency: Option<u64>,
        now: u64,
    ) -> SessionView {
        if self.stopped {
            self
        } else {
            let s1 = self.take_blocks(blocks, now);
            match from {
                None => s1,
                Some(peer) => {
                    let s2 = if self.relevant(blocks, haves, dont_haves) {
                        s1.note_peer(peer, latency, now)
                    } else {
                        s1
                    };
                    let s3 = SessionView {
                        in_flight: ask_holder(s2.in_flight, s2.wanted, peer, haves, now),
                        ..s2
                    };
                    s3.take_refusals(peer, dont_haves)
                },
            }
        }
    }

    /// What the session asks for on such a message: to hand out and release
    /// the wanted blocks that arrived; to ask the sender for each wanted
    /// block that it has and that is under way from no peer; and to ask
    /// every peer for each block that all candidates have now declined.
    pub open spec fn receive_from_commands(
        self,
        from: Option<PeerId>,
        blocks: Seq<Cid>,
        haves: Seq<Cid>,
        dont_haves: Seq<Cid>,
        latency: Option<u64>,
        now: u64,
    ) -> Seq<Command> {
        if self.stopped {
            Seq::empty()
        } else {
            let got = self.arrived(blocks);
            let head = for_each(got, |c: Cid| Command::Deliver { cid: c }) + for_each(
                got,
                |c: Cid| Command::Release { cid: c },
            );
            match from {
                None => head,
                Some(peer) => {
                    let after = self.receive_from(from, blocks, haves, dont_haves, latency, now);
                    let s1 = self.take_blocks(blocks, now);
                    head + ask_holder_commands(s1.in_flight, s1.wanted, peer, haves, now)
                        + for_each(
                        after.hopeless(intersection(dont_haves, s1.wanted)),
                        |c: Cid| Command::BroadcastWantBlock { cid: c },
                    )
                },
            }
        }
    }

    /// Whether there is anything to do on a timer: a stopped session and a
    /// session that wants nothing let their timers pass.
    pub open spec fn active(self) -> bool {
        !self.stopped && self.wanted.len() > 0
    }

    /// Whether a lookup of providers is due at `now`.
    pub open spec fn search_due(self, now: u64) -> bool {
        self.active() && self.phase is Discovery && self.search_armed && now >= self.search_at
    }

    /// Whether a broad round of want-haves is due at `now`.
    pub open spec fn rebroadcast_due(self, now: u64) -> bool {
        self.active() && now >= self.rebroadcast_at
    }

    /// Whether an idle tick is due at `now`.
    pub open spec fn tick_due(self, now: u64) -> bool {
        self.active() && now >= self.next_tick_at
    }

    /// Whether the idle tick that is due makes the session give up on its
    /// peers and look for new ones.
    pub open spec fn stalls(self) -> bool {
        crate::message_queue::one_more(self.consecutive_ticks) >= STALLED_TICKS
    }

    /// Whether the idle tick that is due asks chosen peers for blocks.
    pub open spec fn selects(self) -> bool {
        !self.stalls() && self.phase is Steady
    }

    /// The state after the timers were looked at at time `now`, where `m`
    /// is what the peers have said about their blocks.
    pub open spec fn tick(self, m: crate::block_presence_manager::Presences, now: u64) -> SessionView {
        let n = crate::message_queue::one_more(self.consecutive_ticks);
        SessionView {
            search_armed: self.search_armed && !self.search_due(now),
            rebroadcast_at: if self.rebroadcast_due(now) {
                sat_add(now, self.config.rebroadcast_delay)
            } else {
                self.rebroadcast_at
            },
            consecutive_ticks: if self.tick_due(now) {
                n
            } else {
                self.consecutive_ticks
            },
            next_tick_at: if self.tick_due(now) {
                sat_add(now, tick_delay(n as nat) as u64)
            } else {
                self.next_tick_at
            },
            phase: if self.tick_due(now) && self.stalls() {
                Phase::Discovery
            } else {
                self.phase
            },
            in_flight: if self.tick_due(now) && self.selects() {
                asked_on_tick(
                    m,
                    peers_of(self.peers),
                    self.in_flight,
                    self.declined,
                    self.wanted,
                    now,
                )
            } else {
                self.in_flight
            },
            ..self
        }
    }

    /// What the session asks for when a lookup of providers is due.
    pub open spec fn search_commands(self, now: u64) -> Seq<Command> {
        if self.search_due(now) {
            for_each(self.wanted, |c: Cid| Command::FindProviders { cid: c })
        } else {
            Seq::empty()
        }
    }

    /// What the session asks for when a broad round of want-haves is due.
    pub open spec fn rebroadcast_commands(self, now: u64) -> Seq<Command> {
        if self.rebroadcast_due(now) {
            for_each(self.wanted, |c: Cid| Command::BroadcastWantHave { cid: c })
        } else {
            Seq::empty()
        }
    }

    /// What the session asks for when an idle tick is due: a stalled
    /// session asks every peer about every wanted block and has providers
    /// looked up; a session with useful peers asks chosen peers; a session
    /// that still looks for peers asks every peer again.
    pub open spec fn idle_commands(self, m: crate::block_presence_manager::Presences, now: u64) -> Seq<
        Command,
    > {
        if !self.tick_due(now) {
            Seq::empty()
        } else if self.stalls() {
            for_each(self.wanted, |c: Cid| Command::BroadcastWantHave { cid: c }) + for_each(
                self.wanted,
                |c: Cid| Command::FindProviders { cid: c },
            )
        } else if self.phase is Steady {
            tick_commands(m, peers_of(self.peers), self.in_flight, self.declined, self.wanted, now)
        } else {
            for_each(self.wanted, |c: Cid| Command::BroadcastWantHave { cid: c })
        }
    }

    /// What the session asks for when its timers are looked at.
    pub open spec fn tick_all_commands(self, m: crate::block_presence_manager::Presences, now: u64) -> Seq<
        Command,
    > {
        self.search_commands(now) + self.rebroadcast_commands(now) + self.idle_commands(m, now)
    }

    /// The want-blocks whose peers have had their time at `now`.
    pub open spec fn late_flights(self, now: u64) -> Seq<Flight> {
        keys_of(self.in_flight.filter(|e: (Flight, u64)| overdue(self.peers, e, now)))
    }

    /// Whether want-blocks are given up when their time is over.
    pub open spec fn watches(self) -> bool {
        !self.stopped && self.config.simulate_dont_haves_on_timeout
    }

    /// The state after the want-blocks were looked at at time `now`: a peer
    /// that has had its time is taken to have declined.
    pub open spec fn check_watchdogs(self, now: u64) -> SessionView {
        if self.watches() {
            SessionView {
                in_flight: self.in_flight.filter(|e: (Flight, u64)| !overdue(self.peers, e, now)),
                declined: union(self.declined, self.late_flights(now)),
                ..self
            }
        } else {
            self
        }
    }

    /// What the session asks for after that: to ask every peer for each
    /// block that all candidates have now declined.
    pub open spec fn watchdog_commands(self, now: u64) -> Seq<Command> {
        if self.watches() {
            for_each(
                self.check_watchdogs(now).hopeless(
                    self.late_flights(now).map_values(|f: Flight| f.cid),
                ),
                |c: Cid| Command::BroadcastWantBlock { cid: c },
            )
        } else {
            Seq::empty()
        }
    }

    /// The state after `peer` disconnected: it is no candidate any more, and
    /// nothing is remembered of having asked it.
    pub open spec fn peer_disconnected(self, peer: PeerId) -> SessionView {
        SessionView {
            peers: crate::session_peer_manager::without_peer(self.peers, peer),
            in_flight: self.in_flight.filter(|e: (Flight, u64)| e.0.peer != peer),
            declined: self.declined.filter(|f: Flight| f.peer != peer),
            ..self
        }
    }

    /// The state after the callers gave up waiting for `cids`: the blocks
    /// are wanted no longer, and nothing is remembered of having asked for
    /// them. The timers run on as they were.
    pub open spec fn cancel_wants(self, cids: Seq<Cid>) -> SessionView {
        SessionView {
            consecutive_ticks: self.consecutive_ticks,
            next_tick_at: self.next_tick_at,
            ..self.take_blocks(cids, 0)
        }
    }

    /// What the session asks for when the callers give up waiting for
    /// `cids`: to release those of them that were wanted.
    pub open spec fn cancel_wants_commands(self, cids: Seq<Cid>) -> Seq<Command> {
        for_each(self.arrived(cids), |c: Cid| Command::Release { cid: c })
    }

    /// The state after the session was stopped.
    pub open spec fn stop(self) -> SessionView {
        SessionView {
            stopped: true,
            wanted: Seq::empty(),
            live: Seq::empty(),
            in_flight: Seq::empty(),
            declined: Seq::empty(),
            search_armed: false,
            ..self
        }
    }

    /// What the session asks for when it is stopped: to release every block
    /// it wanted.
    pub open spec fn stop_commands(self) -> Seq<Command> {
        for_each(self.wanted, |c: Cid| Command::Release { cid: c })
    }
}

/// A stopped session stays stopped and silent: whatever is asked of it, it
/// asks for nothing, and so no block is ever handed to its callers.
pub proof fn lemma_stopped_is_silent(v: SessionView, cids: Seq<Cid>, peer: PeerId, now: u64)
    requires
        v.stopped,
    ensures
        v.want_blocks(cids, now) == v,
        v.want_blocks_commands(cids).len() == 0,
        v.add_discovered_peer(peer) == v,
        v.add_discovered_peer_commands(peer).len() == 0,
        v.stop().stopped,
{
}

/// What is said to a peer that has a block is only ever a want-block.
pub proof fn lemma_ask_holder_commands(
    flights: Seq<(Flight, u64)>,
    wanted: Seq<Cid>,
    peer: PeerId,
    haves: Seq<Cid>,
    now: u64,
    i: int,
)
    requires
        0 <= i < ask_holder_commands(flights, wanted, peer, haves, now).len(),
    ensures
        ask_holder_commands(flights, wanted, peer, haves, now)[i] is WantBlock,
    decreases haves.len(),
{
    if haves.len() > 0 {
        let before = ask_holder_commands(flights, wanted, peer, haves.drop_last(), now);
        if i < before.len() {
            lemma_ask_holder_commands(flights, wanted, peer, haves.drop_last(), now, i);
        }
    }
}

/// A session hands out exactly the wanted blocks that have arrived: the
/// blocks that a message makes it deliver are those of the message that it
/// waited for, each once, and it waits for none of them afterwards. A
/// stopped session delivers nothing.
pub proof fn lemma_deliveries(
    v: SessionView,
    from: Option<PeerId>,
    blocks: Seq<Cid>,
    haves: Seq<Cid>,
    dont_haves: Seq<Cid>,
    latency: Option<u64>,
    now: u64,
    cid: Cid,
)
    requires
        v.wf(),
    ensures
        v.receive_from_commands(from, blocks, haves, dont_haves, latency, now).contains(
            Command::Deliver { cid },
        ) <==> (!v.stopped && v.wanted.contains(cid) && blocks.contains(cid)),
        blocks.contains(cid) ==> !v.receive_from(
            from,
            blocks,
            haves,
            dont_haves,
            latency,
            now,
        ).wanted.contains(cid),
        v.receive_from(from, blocks, haves, dont_haves, latency, now).id == v.id,
        v.receive_from(from, blocks, haves, dont_haves, latency, now).stopped == v.stopped,
{
    let cmds = v.receive_from_commands(from, blocks, haves, dont_haves, latency, now);
    let target = Command::Deliver { cid };
    lemma_difference(v.wanted, blocks, cid);
    if !v.stopped {
        let got = v.arrived(blocks);
        let d = for_each(got, |c: Cid| Command::Deliver { cid: c });
        let r = for_each(got, |c: Cid| Command::Release { cid: c });
        let head = d + r;
        let s1 = v.take_blocks(blocks, now);
        if got.contains(cid) {
            let i = choose|i: int| 0 <= i < got.len() && got[i] == cid;
            assert(d[i] == target);
            assert(head[i] == target);
            assert(cmds[i] == target);
        }
        if cmds.contains(target) {
            let i = choose|i: int| 0 <= i < cmds.len() && cmds[i] == target;
            if i < d.len() {
                assert(cmds[i] == d[i]);
                assert(got[i] == cid);
            } else if i < head.len() {
                assert(cmds[i] == r[i - d.len()]);
            } else {
                match from {
                    None => {},
                    Some(peer) => {
                        let asks = ask_holder_commands(s1.in_flight, s1.wanted, peer, haves, now);
                        if i < head.len() + asks.len() {
                            assert(cmds[i] == asks[i - head.len()]);
                            lemma_ask_holder_commands(
                                s1.in_flight,
                                s1.wanted,
                                peer,
                                haves,
                                now,
                                i - head.len(),
                            );
                        } else {
                            let after = v.receive_from(from, blocks, haves, dont_haves, latency, now);
                            let esc = for_each(
                                after.hopeless(intersection(dont_haves, s1.wanted)),
                                |c: Cid| Command::BroadcastWantBlock { cid: c },
                            );
                            assert(cmds[i] == esc[i - head.len() - asks.len()]);
                        }
                    },
                }
            }
        }
    }
}

/// What a session asks of chosen peers on an idle tick is only ever a
/// want-block or a want-have.
pub proof fn lemma_tick_commands(
    m: crate::block_presence_manager::Presences,
    candidates: Seq<PeerId>,
    flights: Seq<(Flight, u64)>,
    declined: Seq<Flight>,
    cids: Seq<Cid>,
    now: u64,
    i: int,
)
    requires
        0 <= i < tick_commands(m, candidates, flights, declined, cids, now).len(),
    ensures
        !(tick_commands(m, candidates, flights, declined, cids, now)[i] is Deliver),
    decreases cids.len(),
{
    if cids.len() > 0 {
        let before = tick_commands(m, candidates, flights, declined, cids.drop_last(), now);
        if i < before.len() {
            lemma_tick_commands(m, candidates, flights, declined, cids.drop_last(), now, i);
        }
    }
}

/// Only a message makes a session hand out a block: what a session asks for
/// on its timers, on a provider found, on new wants and on its stop holds no
/// delivery.
pub proof fn lemma_only_messages_deliver(
    v: SessionView,
    m: crate::block_presence_manager::Presences,
    cids: Seq<Cid>,
    peer: PeerId,
    now: u64,
    cid: Cid,
)
    ensures
        !v.tick_all_commands(m, now).contains(Command::Deliver { cid }),
        !v.watchdog_commands(now).contains(Command::Deliver { cid }),
        !v.want_blocks_commands(cids).contains(Command::Deliver { cid }),
        !v.add_discovered_peer_commands(peer).contains(Command::Deliver { cid }),
        !v.stop_commands().contains(Command::Deliver { cid }),
{
    let target = Command::Deliver { cid };
    let t = v.tick_all_commands(m, now);
    if t.contains(target) {
        let i = choose|i: int| 0 <= i < t.len() && t[i] == target;
        let a = v.search_commands(now);
        let b = v.rebroadcast_commands(now);
        let c = v.idle_commands(m, now);
        if i < a.len() {
            assert(t[i] == a[i]);
        } else if i < a.len() + b.len() {
            assert(t[i] == b[i - a.len()]);
        } else {
            let k = i - a.len() - b.len();
            assert(t[i] == c[k]);
            if v.tick_due(now) && !v.stalls() && v.phase is Steady {
                lemma_tick_commands(m, peers_of(v.peers), v.in_flight, v.declined, v.wanted, now, k);
            } else if v.tick_due(now) && v.stalls() {
                let x = for_each(v.wanted, |c: Cid| Command::BroadcastWantHave { cid: c });
                let y = for_each(v.wanted, |c: Cid| Command::FindProviders { cid: c });
                if k < x.len() {
                    assert(c[k] == x[k]);
                } else {
                    assert(c[k] == y[k - x.len()]);
                }
            }
        }
    }
    let w = v.watchdog_commands(now);
    if w.contains(target) {
        let i = choose|i: int| 0 <= i < w.len() && w[i] == target;
    }
    let n = v.want_blocks_commands(cids);
    if n.contains(target) {
        let i = choose|i: int| 0 <= i < n.len() && n[i] == target;
    }
    let d = v.add_discovered_peer_commands(peer);
    if d.contains(target) {
        let i = choose|i: int| 0 <= i < d.len() && d[i] == target;
        if i > 0 {
            let rest = for_each(v.wanted, |c: Cid| Command::WantHave { peer, cid: c });
            assert(d[i] == rest[i - 1]);
        }
    }
    let s = v.stop_commands();
    if s.contains(target) {
        let i = choose|i: int| 0 <= i < s.len() && s[i] == target;
    }
}

/// A peer is asked for a block only on its word and the session's want:
/// every want-block that a message brings about goes to the sender, for a
/// block that the sender said it has and that the session still wants.
pub proof fn lemma_asks_follow_haves(
    flights: Seq<(Flight, u64)>,
    wanted: Seq<Cid>,
    peer: PeerId,
    haves: Seq<Cid>,
    now: u64,
    i: int,
)
    requires
        0 <= i < ask_holder_commands(flights, wanted, peer, haves, now).len(),
    ensures
        ask_holder_commands(flights, wanted, peer, haves, now)[i] matches Command::WantBlock {
            peer: to,
            cid,
        } && to == peer && wanted.contains(cid) && haves.contains(cid),
    decreases haves.len(),
{
    if haves.len() > 0 {
        let before = ask_holder_commands(flights, wanted, peer, haves.drop_last(), now);
        if i < before.len() {
            lemma_asks_follow_haves(flights, wanted, peer, haves.drop_last(), now, i);
            let c = before[i]->WantBlock_cid;
            let j = choose|j: int| 0 <= j < haves.drop_last().len() && haves.drop_last()[j] == c;
            assert(haves[j] == c);
        } else {
            assert(haves[haves.len() - 1] == haves.last());
        }
    }
}

/// Whether `cmd` has a peer asked about `cid`.
pub open spec fn asks_about(cmd: Command, cid: Cid) -> bool {
    match cmd {
        Command::BroadcastWantHave { cid: c } => c == cid,
        Command::BroadcastWantBlock { cid: c } => c == cid,
        Command::WantBlock { peer, cid: c } => c == cid,
        Command::WantHave { peer, cid: c } => c == cid,
        _ => false,
    }
}

/// A message makes a session ask only about blocks that it wants: about a
/// block that the session does not want, nothing is asked of anybody,
/// whatever the message says of it.
pub proof fn lemma_message_asks_only_about_wanted(
    v: SessionView,
    from: Option<PeerId>,
    blocks: Seq<Cid>,
    haves: Seq<Cid>,
    dont_haves: Seq<Cid>,
    latency: Option<u64>,
    now: u64,
    i: int,
    cid: Cid,
)
    requires
        0 <= i < v.receive_from_commands(from, blocks, haves, dont_haves, latency, now).len(),
        asks_about(
            v.receive_from_commands(from, blocks, haves, dont_haves, latency, now)[i],
            cid,
        ),
    ensures
        v.wanted.contains(cid),
        !blocks.contains(cid),
{
    let cmds = v.receive_from_commands(from, blocks, haves, dont_haves, latency, now);
    let got = v.arrived(blocks);
    let d = for_each(got, |c: Cid| Command::Deliver { cid: c });
    let r = for_each(got, |c: Cid| Command::Release { cid: c });
    let head = d + r;
    let s1 = v.take_blocks(blocks, now);
    if i < d.len() {
        assert(cmds[i] == d[i]);
    } else if i < head.len() {
        assert(cmds[i] == r[i - d.len()]);
    } else {
        match from {
            None => {},
            Some(peer) => {
                let asks = ask_holder_commands(s1.in_flight, s1.wanted, peer, haves, now);
                lemma_difference(v.wanted, blocks, cid);
                if i < head.len() + asks.len() {
                    assert(cmds[i] == asks[i - head.len()]);
                    lemma_asks_follow_haves(
                        s1.in_flight,
                        s1.wanted,
                        peer,
                        haves,
                        now,
                        i - head.len(),
                    );
                } else {
                    let after = v.receive_from(from, blocks, haves, dont_haves, latency, now);
                    let concerned = intersection(dont_haves, s1.wanted);
                    let hopeless = after.hopeless(concerned);
                    let esc = for_each(hopeless, |c: Cid| Command::BroadcastWantBlock { cid: c });
                    let k = i - head.len() - asks.len();
                    assert(cmds[i] == esc[k]);
                    assert(hopeless[k] == cid);
                    assert(hopeless.contains(cid));
                    crate::keyset::lemma_filter_contains(
                        concerned,
                        |c: Cid| all_declined(after.declined, peers_of(after.peers), c),
                        cid,
                    );
                    lemma_difference(dont_haves, s1.wanted, cid);
                }
            },
        }
    }
}

/// A session releases exactly the wanted blocks that have arrived.
pub proof fn lemma_releases(
    v: SessionView,
    from: Option<PeerId>,
    blocks: Seq<Cid>,
    haves: Seq<Cid>,
    dont_haves: Seq<Cid>,
    latency: Option<u64>,
    now: u64,
    cid: Cid,
)
    ensures
        v.receive_from_commands(from, blocks, haves, dont_haves, latency, now).contains(
            Command::Release { cid },
        ) <==> (!v.stopped && v.wanted.contains(cid) && blocks.contains(cid)),
{
    let cmds = v.receive_from_commands(from, blocks, haves, dont_haves, latency, now);
    let target = Command::Release { cid };
    lemma_difference(v.wanted, blocks, cid);
    if !v.stopped {
        let got = v.arrived(blocks);
        let d = for_each(got, |c: Cid| Command::Deliver { cid: c });
        let r = for_each(got, |c: Cid| Command::Release { cid: c });
        let head = d + r;
        let s1 = v.take_blocks(blocks, now);
        if got.contains(cid) {
            let i = choose|i: int| 0 <= i < got.len() && got[i] == cid;
            assert(r[i] == target);
            assert(head[d.len() + i] == target);
            assert(cmds[d.len() + i] == target);
        }
        if cmds.contains(target) {
            let i = choose|i: int| 0 <= i < cmds.len() && cmds[i] == target;
            if i < d.len() {
                assert(cmds[i] == d[i]);
            } else if i < head.len() {
                assert(cmds[i] == r[i - d.len()]);
                assert(got[i - d.len()] == cid);
            } else {
                match from {
                    None => {},
                    Some(peer) => {
                        let asks = ask_holder_commands(s1.in_flight, s1.wanted, peer, haves, now);
                        if i < head.len() + asks.len() {
                            assert(cmds[i] == asks[i - head.len()]);
                            lemma_ask_holder_commands(
                                s1.in_flight,
                                s1.wanted,
                                peer,
                                haves,
                                now,
                                i - head.len(),
                            );
                        } else {
                            let after = v.receive_from(from, blocks, haves, dont_haves, latency, now);
                            let esc = for_each(
                                after.hopeless(intersection(dont_haves, s1.wanted)),
                                |c: Cid| Command::BroadcastWantBlock { cid: c },
                            );
                            assert(cmds[i] == esc[i - head.len() - asks.len()]);
                        }
                    },
                }
            }
        }
    }
}

/// A session.
pub struct Session {
    id: u64,
    config: SessionConfig,
    phase: Phase,
    stopped: bool,
    wanted: KeySet<Cid>,
    live: KeySet<Cid>,
    peers: SessionPeerManager,
    in_flight: KeyMap<Flight, u64>,
    declined: KeySet<Flight>,
    consecutive_ticks: u32,
    next_tick_at: u64,
    search_armed: bool,
    search_at: u64,
    rebroadcast_at: u64,
}

impl View for Session {
    type V = SessionView;

    closed spec fn view(&self) -> SessionView {
        SessionView {
            id: self.id,
            config: self.config,
            phase: self.phase,
            stopped: self.stopped,
            wanted: self.wanted@,
            live: self.live@,
            peers: self.peers@,
            discovered: self.peers.discovered(),
            in_flight: self.in_flight@,
            declined: self.declined@,
            consecutive_ticks: self.consecutive_ticks,
            next_tick_at: self.next_tick_at,
            search_armed: self.search_armed,
            search_at: self.search_at,
            rebroadcast_at: self.rebroadcast_at,
        }
    }
}

/// The commands that `make` gives for each of `cids`: a helper for the loops
/// that build them.
proof fn lemma_for_each_next(cids: Seq<Cid>, i: int, make: spec_fn(Cid) -> Command)
    requires
        0 <= i < cids.len(),
    ensures
        for_each(cids.subrange(0, i + 1), make) == for_each(cids.subrange(0, i), make).push(
            make(cids[i]),
        ),
{
    assert(for_each(cids.subrange(0, i + 1), make) =~= for_each(cids.subrange(0, i), make).push(
        make(cids[i]),
    ));
}

/// The ends of such a loop: nothing for no block, and the whole range is
/// the sequence.
proof fn lemma_for_each_ends(cids: Seq<Cid>, make: spec_fn(Cid) -> Command)
    ensures
        for_each(cids.subrange(0, 0), make) == Seq::<Command>::empty(),
        cids.subrange(0, cids.len() as int) == cids,
{
    assert(for_each(cids.subrange(0, 0), make) =~= Seq::<Command>::empty());
    assert(cids.subrange(0, cids.len() as int) =~= cids);
}

/// The kinds of command that are given once for each of a list of blocks.
#[derive(Clone, Copy)]
enum Each {
    WantHave,
    Find,
}

/// The command of kind `kind` for `cid`.
spec fn each_command(kind: Each, cid: Cid) -> Command {
    match kind {
        Each::WantHave => Command::BroadcastWantHave { cid },
        Each::Find => Command::FindProviders { cid },
    }
}

/// Adds to `commands` the command of kind `kind` for each of `cids`.
fn append_each(commands: &mut Vec<Command>, cids: &Vec<Cid>, kind: Each)
    ensures
        final(commands)@ == old(commands)@ + for_each(cids@, |c: Cid| each_command(kind, c)),
{
    let ghost make = |c: Cid| each_command(kind, c);
    let ghost base = commands@;
    let mut i: usize = 0;
    proof {
        lemma_for_each_ends(cids@, make);
        assert(base + Seq::<Command>::empty() =~= base);
    }
    while i < cids.len()
        invariant
            i <= cids@.len(),
            make == (|c: Cid| each_command(kind, c)),
            commands@ == base + for_each(cids@.subrange(0, i as int), make),
        decreases cids@.len() - i,
    {
        proof {
            lemma_for_each_next(cids@, i as int, make);
            let part = for_each(cids@.subrange(0, i as int), make);
            assert((base + part).push(make(cids@[i as int])) =~= base + part.push(
                make(cids@[i as int]),
            ));
        }
        let command = match kind {
            Each::WantHave => Command::BroadcastWantHave { cid: cids[i] },
            Each::Find => Command::FindProviders { cid: cids[i] },
        };
        commands.push(command);
        i += 1;
    }
    proof {
        lemma_for_each_ends(cids@, make);
    }
}

impl Session {
    /// The state is in order; see [`SessionView::wf`].
    pub open spec fn wf(&self) -> bool {
        self@.wf()
    }

    /// A new session that looks for peers and wants nothing yet.
    pub fn new(id: u64, config: SessionConfig) -> (s: Self)
        ensures
            s.wf(),
            s@ == (SessionView {
                id,
                config,
                phase: Phase::Discovery,
                stopped: false,
                wanted: Seq::empty(),
                live: Seq::empty(),
                peers: Seq::empty(),
                discovered: false,
                in_flight: Seq::empty(),
                declined: Seq::empty(),
                consecutive_ticks: 0,
                next_tick_at: 0,
                search_armed: false,
                search_at: 0,
                rebroadcast_at: 0,
            }),
    {
        let s = Session {
            id,
            config,
            phase: Phase::Discovery,
            stopped: false,
            wanted: KeySet::new(),
            live: KeySet::new(),
            peers: SessionPeerManager::new(),
            in_flight: KeyMap::new(),
            declined: KeySet::new(),
            consecutive_ticks: 0,
            next_tick_at: 0,
            search_armed: false,
            search_at: 0,
            rebroadcast_at: 0,
        };
        assert(keys_of(Seq::<(Flight, u64)>::empty()) =~= Seq::<Flight>::empty());
        s
    }

    pub fn id(&self) -> (id: u64)
        ensures
            id == self@.id,
    {
        self.id
    }

    pub fn is_stopped(&self) -> (b: bool)
        ensures
            b == self@.stopped,
    {
        self.stopped
    }

    pub fn phase(&self) -> (p: Phase)
        ensures
            p == self@.phase,
    {
        self.phase
    }

    /// The blocks that callers wait for.
    pub fn wanted(&self) -> (v: Vec<Cid>)
        ensures
            v@ == self@.wanted,
    {
        self.wanted.to_vec()
    }

    /// Whether callers wait for `cid`.
    pub fn wants(&self, cid: &Cid) -> (b: bool)
        requires
            self.wf(),
        ensures
            b == self@.wanted.contains(*cid),
    {
        self.wanted.contains(cid)
    }

    fn is_discovery(&self) -> (b: bool)
        ensures
            b == (self@.phase is Discovery),
    {
        match self.phase {
            Phase::Discovery => true,
            Phase::Steady => false,
        }
    }

    /// Takes note at time `now` that callers wait for `cids`. Returns what
    /// is to be done: every block that was not wanted before is asked of
    /// every peer with a want-have. A session that looks for peers also
    /// sets the time for a lookup of providers.
    pub fn want_blocks(&mut self, cids: &Vec<Cid>, now: u64) -> (commands: Vec<Command>)
        requires
            old(self).wf(),
        ensures
            final(self)@ == old(self)@.want_blocks(cids@, now),
            commands@ == old(self)@.want_blocks_commands(cids@),
            final(self).wf(),
    {
        if self.stopped {
            return Vec::new();
        }
        let ghost before = self@;
        let idle = self.wanted.len() == 0;
        let fresh = self.wanted.extend_new(cids);
        self.live.extend(&fresh);
        proof {
            assert forall|c: Cid| self.live@.contains(c) implies self.wanted@.contains(c) by {
                lemma_union(before.live, fresh@, c);
                lemma_news(before.wanted, cids@, c);
                lemma_union(before.wanted, cids@, c);
            }
        }
        if idle {
            self.consecutive_ticks = 0;
            self.next_tick_at = saturating_add(now, BASE_TICK_DELAY);
            self.rebroadcast_at = saturating_add(now, self.config.rebroadcast_delay);
        }
        if !self.search_armed && self.is_discovery() && fresh.len() > 0 {
            self.search_armed = true;
            self.search_at = saturating_add(now, self.config.provider_search_delay);
        }
        let ghost make = |c: Cid| Command::BroadcastWantHave { cid: c };
        let mut commands: Vec<Command> = Vec::new();
        let mut i: usize = 0;
        proof {
            lemma_for_each_ends(fresh@, make);
        }
        while i < fresh.len()
            invariant
                i <= fresh@.len(),
                make == (|c: Cid| Command::BroadcastWantHave { cid: c }),
                commands@ == for_each(fresh@.subrange(0, i as int), make),
            decreases fresh@.len() - i,
        {
            proof {
                lemma_for_each_next(fresh@, i as int, make);
            }
            commands.push(Command::BroadcastWantHave { cid: fresh[i] });
            i += 1;
        }
        assert(fresh@.subrange(0, fresh@.len() as int) =~= fresh@);
        commands
    }

    /// Takes note that a lookup of providers has found `peer`. The peer
    /// becomes a candidate, and the result asks to connect to it and to ask
    /// it about every wanted block.
    pub fn add_discovered_peer(&mut self, peer: PeerId) -> (commands: Vec<Command>)
        requires
            old(self).wf(),
        ensures
            final(self)@ == old(self)@.add_discovered_peer(peer),
            commands@ == old(self)@.add_discovered_peer_commands(peer),
            final(self).wf(),
    {
        if self.stopped {
            return Vec::new();
        }
        self.peers.add_peer(peer);
        let wanted = self.wanted.to_vec();
        let ghost make = |c: Cid| Command::WantHave { peer, cid: c };
        let mut commands: Vec<Command> = Vec::new();
        commands.push(Command::Connect { peer });
        let mut i: usize = 0;
        proof {
            lemma_for_each_ends(wanted@, make);
            assert(seq![Command::Connect { peer }] + Seq::<Command>::empty() =~= seq![
                Command::Connect { peer },
            ]);
        }
        while i < wanted.len()
            invariant
                i <= wanted@.len(),
                make == (|c: Cid| Command::WantHave { peer, cid: c }),
                commands@ == seq![Command::Connect { peer }] + for_each(
                    wanted@.subrange(0, i as int),
                    make,
                ),
            decreases wanted@.len() - i,
        {
            proof {
                lemma_for_each_next(wanted@, i as int, make);
                let head = seq![Command::Connect { peer }];
                let part = for_each(wanted@.subrange(0, i as int), make);
                assert((head + part).push(make(wanted@[i as int])) =~= head + part.push(
                    make(wanted@[i as int]),
                ));
            }
            commands.push(Command::WantHave { peer, cid: wanted[i] });
            i += 1;
        }
        assert(wanted@.subrange(0, wanted@.len() as int) =~= wanted@);
        commands
    }

    /// Takes the wanted blocks among `blocks` off the session's books and
    /// returns them.
    fn take_blocks(&mut self, blocks: &Vec<Cid>, now: u64) -> (got: Vec<Cid>)
        requires
            old(self).wf(),
        ensures
            final(self)@ == old(self)@.take_blocks(blocks@, now),
            got@ == old(self)@.arrived(blocks@),
            final(self).wf(),
    {
        let ghost before = self@;
        let wanted = self.wanted.to_vec();
        let got = retain_in_vec(&wanted, blocks);
        self.wanted.remove_all(blocks);
        self.live.remove_all(blocks);
        let ghost keep_flight = |e: (Flight, u64)| !blocks@.contains(e.0.cid);
        let mut flights: Vec<(Flight, u64)> = Vec::new();
        let mut i: usize = 0;
        proof {
            lemma_filter_ends(before.in_flight, keep_flight);
            lemma_filter_keys(before.in_flight, keep_flight);
        }
        while i < self.in_flight.len()
            invariant
                self.in_flight@ == before.in_flight,
                i <= before.in_flight.len(),
                keep_flight == (|e: (Flight, u64)| !blocks@.contains(e.0.cid)),
                flights@ == before.in_flight.subrange(0, i as int).filter(keep_flight),
            decreases before.in_flight.len() - i,
        {
            proof {
                lemma_filter_next(before.in_flight, i as int, keep_flight);
            }
            let e = self.in_flight.entry(i);
            if !vec_contains(blocks, &e.0.cid) {
                flights.push(e);
            }
            i += 1;
        }
        self.in_flight.replace(flights);
        let ghost keep = |f: Flight| !blocks@.contains(f.cid);
        let mut declined: Vec<Flight> = Vec::new();
        let mut j: usize = 0;
        proof {
            lemma_filter_ends(before.declined, keep);
            lemma_filter_no_duplicates(before.declined, keep);
        }
        while j < self.declined.len()
            invariant
                self.declined@ == before.declined,
                j <= before.declined.len(),
                keep == (|f: Flight| !blocks@.contains(f.cid)),
                declined@ == before.declined.subrange(0, j as int).filter(keep),
            decreases before.declined.len() - j,
        {
            proof {
                lemma_filter_next(before.declined, j as int, keep);
            }
            let f = self.declined.get(j);
            if !vec_contains(blocks, &f.cid) {
                declined.push(f);
            }
            j += 1;
        }
        self.declined.replace(declined);
        if got.len() > 0 {
            self.consecutive_ticks = 0;
            self.next_tick_at = saturating_add(now, BASE_TICK_DELAY);
        }
        proof {
            assert forall|c: Cid| self.live@.contains(c) implies self.wanted@.contains(c) by {
                lemma_difference(before.live, blocks@, c);
                lemma_difference(before.wanted, blocks@, c);
            }
        }
        got
    }

    /// Takes note that `peer` has answered.
    fn note_peer(&mut self, peer: PeerId, latency: Option<u64>, now: u64)
        requires
            old(self).wf(),
        ensures
            final(self)@ == old(self)@.note_peer(peer, latency, now),
            final(self).wf(),
    {
        let ghost before = self@;
        self.peers.add_peer(peer);
        proof {
            let with = before.candidates_with(peer);
            if !peers_of(before.peers).contains(peer) {
                assert(peers_of(with)[before.peers.len() as int] == peer);
            }
        }
        match self.peers.get(&peer) {
            Some(known) => {
                let sample = match latency {
                    Some(l) => l,
                    None => known.rtt_ewma,
                };
                self.peers.record_response(&peer, now, sample);
            },
            None => {},
        }
        self.phase = Phase::Steady;
    }

    fn flight_for(&self, cid: &Cid) -> (b: bool)
        ensures
            b == in_flight_for(self@.in_flight, *cid),
    {
        let mut i: usize = 0;
        while i < self.in_flight.len()
            invariant
                i <= self.in_flight@.len(),
                forall|j: int| 0 <= j < i ==> (#[trigger] self.in_flight@[j]).0.cid != *cid,
            decreases self.in_flight@.len() - i,
        {
            if self.in_flight.entry(i).0.cid.same(cid) {
                return true;
            }
            i += 1;
        }
        false
    }

    /// Asks `peer` for the wanted blocks among `haves` that are under way
    /// from no peer.
    fn ask_holder(&mut self, peer: PeerId, haves: &Vec<Cid>, now: u64) -> (commands: Vec<Command>)
        requires
            old(self).wf(),
        ensures
            final(self)@ == (SessionView {
                in_flight: ask_holder(old(self)@.in_flight, old(self)@.wanted, peer, haves@, now),
                ..old(self)@
            }),
            commands@ == ask_holder_commands(
                old(self)@.in_flight,
                old(self)@.wanted,
                peer,
                haves@,
                now,
            ),
            final(self).wf(),
    {
        let ghost before = self@;
        let mut commands: Vec<Command> = Vec::new();
        let mut i: usize = 0;
        while i < haves.len()
            invariant
                i <= haves@.len(),
                self.wf(),
                self@ == (SessionView {
                    in_flight: ask_holder(
                        before.in_flight,
                        before.wanted,
                        peer,
                        haves@.subrange(0, i as int),
                        now,
                    ),
                    ..before
                }),
                commands@ == ask_holder_commands(
                    before.in_flight,
                    before.wanted,
                    peer,
                    haves@.subrange(0, i as int),
                    now,
                ),
            decreases haves@.len() - i,
        {
            assert(haves@.subrange(0, i + 1).drop_last() =~= haves@.subrange(0, i as int));
            let c = haves[i];
            if self.wanted.contains(&c) && !self.flight_for(&c) {
                self.in_flight.set(Flight { cid: c, peer }, now);
                commands.push(Command::WantBlock { peer, cid: c });
            }
            i += 1;
        }
        assert(haves@.subrange(0, haves@.len() as int) =~= haves@);
        commands
    }

    fn all_declined(&self, peers: &Vec<PeerId>, cid: &Cid) -> (b: bool)
        requires
            self.wf(),
        ensures
            b == all_declined(self@.declined, peers@, *cid),
    {
        if peers.len() == 0 {
            return false;
        }
        let mut i: usize = 0;
        while i < peers.len()
            invariant
                self.wf(),
                i <= peers@.len(),
                forall|j: int|
                    0 <= j < i ==> self@.declined.contains(
                        Flight { cid: *cid, peer: #[trigger] peers@[j] },
                    ),
            decreases peers@.len() - i,
        {
            if !self.declined.contains(&Flight { cid: *cid, peer: peers[i] }) {
                return false;
            }
            i += 1;
        }
        true
    }

    /// The blocks among `cids` that every candidate has declined, as
    /// requests to ask every peer for them.
    fn escalate(&self, cids: &Vec<Cid>) -> (commands: Vec<Command>)
        requires
            self.wf(),
        ensures
            commands@ == for_each(
                self@.hopeless(cids@),
                |c: Cid| Command::BroadcastWantBlock { cid: c },
            ),
    {
        let peers = self.peers.peers();
        let ghost pred = |c: Cid| all_declined(self@.declined, peers_of(self@.peers), c);
        let ghost make = |c: Cid| Command::BroadcastWantBlock { cid: c };
        let mut commands: Vec<Command> = Vec::new();
        let mut i: usize = 0;
        proof {
            lemma_filter_ends(cids@, pred);
            assert(for_each(Seq::<Cid>::empty(), make) =~= Seq::<Command>::empty());
        }
        while i < cids.len()
            invariant
                self.wf(),
                peers@ == peers_of(self@.peers),
                i <= cids@.len(),
                pred == (|c: Cid| all_declined(self@.declined, peers_of(self@.peers), c)),
                make == (|c: Cid| Command::BroadcastWantBlock { cid: c }),
                commands@ == for_each(cids@.subrange(0, i as int).filter(pred), make),
            decreases cids@.len() - i,
        {
            proof {
                lemma_filter_next(cids@, i as int, pred);
                let f = cids@.subrange(0, i as int).filter(pred);
                assert(for_each(f.push(cids@[i as int]), make) =~= for_each(f, make).push(
                    make(cids@[i as int]),
                ));
            }
            if self.all_declined(&peers, &cids[i]) {
                commands.push(Command::BroadcastWantBlock { cid: cids[i] });
            }
            i += 1;
        }
        commands
    }

    /// Takes note that `peer` lacks the wanted blocks among `dont_haves`.
    fn take_refusals(&mut self, peer: PeerId, dont_haves: &Vec<Cid>) -> (concerned: Vec<Cid>)
        requires
            old(self).wf(),
        ensures
            final(self)@ == old(self)@.take_refusals(peer, dont_haves@),
            concerned@ == intersection(dont_haves@, old(self)@.wanted),
            final(self).wf(),
    {
        let concerned = retain_in(dont_haves, &self.wanted);
        let ghost make = |c: Cid| Flight { cid: c, peer };
        let mut refusals: Vec<Flight> = Vec::new();
        let mut i: usize = 0;
        while i < concerned.len()
            invariant
                i <= concerned@.len(),
                make == (|c: Cid| Flight { cid: c, peer }),
                refusals@ == concerned@.subrange(0, i as int).map_values(make),
            decreases concerned@.len() - i,
        {
            refusals.push(Flight { cid: concerned[i], peer });
            assert(concerned@.subrange(0, i + 1).map_values(make) =~= concerned@.subrange(
                0,
                i as int,
            ).map_values(make).push(make(concerned@[i as int])));
            i += 1;
        }
        assert(concerned@.subrange(0, concerned@.len() as int) =~= concerned@);
        self.in_flight.remove_all(&refusals);
        self.declined.extend(&refusals);
        concerned
    }

    /// Takes in, at time `now`, what a message said: the blocks it held,
    /// and the blocks that its sender has and lacks. `from` is the sender,
    /// or nothing for blocks that come from the local store; `latency` is
    /// the round trip that the message gave, where one was measured.
    /// Returns what is to be done; see
    /// [`SessionView::receive_from_commands`].
    pub fn receive_from(
        &mut self,
        from: Option<PeerId>,
        blocks: &Vec<Cid>,
        haves: &Vec<Cid>,
        dont_haves: &Vec<Cid>,
        latency: Option<u64>,
        now: u64,
    ) -> (commands: Vec<Command>)
        requires
            old(self).wf(),
        ensures
            final(self)@ == old(self)@.receive_from(
                from,
                blocks@,
                haves@,
                dont_haves@,
                latency,
                now,
            ),
            commands@ == old(self)@.receive_from_commands(
                from,
                blocks@,
                haves@,
                dont_haves@,
                latency,
                now,
            ),
            final(self).wf(),
    {
        if self.stopped {
            return Vec::new();
        }
        let ghost before = self@;
        let relevant = self.is_relevant(blocks, haves, dont_haves);
        let got = self.take_blocks(blocks, now);
        let mut commands: Vec<Command> = Vec::new();
        let ghost deliver = |c: Cid| Command::Deliver { cid: c };
        let ghost release = |c: Cid| Command::Release { cid: c };
        let mut i: usize = 0;
        proof {
            lemma_for_each_ends(got@, deliver);
            lemma_for_each_ends(got@, release);
        }
        while i < got.len()
            invariant
                i <= got@.len(),
                deliver == (|c: Cid| Command::Deliver { cid: c }),
                commands@ == for_each(got@.subrange(0, i as int), deliver),
            decreases got@.len() - i,
        {
            proof {
                lemma_for_each_next(got@, i as int, deliver);
            }
            commands.push(Command::Deliver { cid: got[i] });
            i += 1;
        }
        let mut j: usize = 0;
        while j < got.len()
            invariant
                j <= got@.len(),
                release == (|c: Cid| Command::Release { cid: c }),
                commands@ == for_each(got@, deliver) + for_each(got@.subrange(0, j as int), release),
            decreases got@.len() - j,
        {
            proof {
                lemma_for_each_next(got@, j as int, release);
                let a = for_each(got@, deliver);
                let b = for_each(got@.subrange(0, j as int), release);
                assert((a + b).push(release(got@[j as int])) =~= a + b.push(release(got@[j as int])));
            }
            commands.push(Command::Release { cid: got[j] });
            j += 1;
        }
        match from {
            None => {},
            Some(peer) => {
                if relevant {
                    self.note_peer(peer, latency, now);
                }
                let mut asks = self.ask_holder(peer, haves, now);
                let concerned = self.take_refusals(peer, dont_haves);
                let mut escalations = self.escalate(&concerned);
                commands.append(&mut asks);
                commands.append(&mut escalations);
            },
        }
        commands
    }

    /// Whether a message with these blocks, haves and dont-haves says
    /// anything about a block that the session wants.
    pub fn is_relevant(&self, blocks: &Vec<Cid>, haves: &Vec<Cid>, dont_haves: &Vec<Cid>) -> (b: bool)
        requires
            self.wf(),
        ensures
            b == self@.relevant(blocks@, haves@, dont_haves@),
    {
        let wanted = self.wanted.to_vec();
        retain_in_vec(&wanted, blocks).len() > 0 || retain_in(haves, &self.wanted).len() > 0
            || retain_in(dont_haves, &self.wanted).len() > 0
    }

    /// Chooses the peers to ask for `cid`; see [`block_peers`] and
    /// [`have_peers`].
    fn select_peers(&self, cid: Cid, presences: &BlockPresenceManager) -> (r: (Vec<PeerId>, Vec<PeerId>))
        requires
            self.wf(),
            presences.wf(),
        ensures
            r.0@ == block_peers(
                presences@,
                peers_of(self@.peers),
                self@.in_flight,
                self@.declined,
                cid,
            ),
            r.1@ == have_peers(
                presences@,
                peers_of(self@.peers),
                self@.in_flight,
                self@.declined,
                cid,
            ),
    {
        let candidates = self.peers.peers();
        let ghost flights = self@.in_flight;
        let ghost declined = self@.declined;
        let ghost m = presences@;
        let ghost fresh_pred = |p: PeerId| !was_asked(flights, declined, cid, p);
        let mut open: Vec<PeerId> = Vec::new();
        let mut i: usize = 0;
        proof {
            lemma_filter_ends(candidates@, fresh_pred);
        }
        while i < candidates.len()
            invariant
                self.wf(),
                flights == self@.in_flight,
                declined == self@.declined,
                i <= candidates@.len(),
                fresh_pred == (|p: PeerId| !was_asked(flights, declined, cid, p)),
                open@ == candidates@.subrange(0, i as int).filter(fresh_pred),
            decreases candidates@.len() - i,
        {
            proof {
                lemma_filter_next(candidates@, i as int, fresh_pred);
            }
            let f = Flight { cid, peer: candidates[i] };
            if !(self.in_flight.contains_key(&f) || self.declined.contains(&f)) {
                open.push(candidates[i]);
            }
            i += 1;
        }
        let ghost holds = |p: PeerId| presence(m, p, cid) == Some(true);
        let ghost may = |p: PeerId| presence(m, p, cid) != Some(false);
        let mut holders: Vec<PeerId> = Vec::new();
        let mut hopefuls: Vec<PeerId> = Vec::new();
        let mut j: usize = 0;
        proof {
            lemma_filter_ends(open@, holds);
            lemma_filter_ends(open@, may);
        }
        while j < open.len()
            invariant
                presences.wf(),
                m == presences@,
                j <= open@.len(),
                holds == (|p: PeerId| presence(m, p, cid) == Some(true)),
                may == (|p: PeerId| presence(m, p, cid) != Some(false)),
                holders@ == open@.subrange(0, j as int).filter(holds),
                hopefuls@ == open@.subrange(0, j as int).filter(may),
            decreases open@.len() - j,
        {
            proof {
                lemma_filter_next(open@, j as int, holds);
                lemma_filter_next(open@, j as int, may);
            }
            if presences.peer_has_block(&open[j], &cid) {
                holders.push(open[j]);
            }
            if !presences.peer_does_not_have_block(&open[j], &cid) {
                hopefuls.push(open[j]);
            }
            j += 1;
        }
        let mut chosen: Vec<PeerId> = Vec::new();
        if holders.len() > 0 {
            chosen.push(holders[0]);
            assert(chosen@ =~= seq![holders@[0]]);
        } else {
            hopefuls.truncate(FALLBACK_PEERS);
            chosen = hopefuls;
        }
        let ghost rest = |p: PeerId| !chosen@.contains(p);
        let mut others: Vec<PeerId> = Vec::new();
        let mut k: usize = 0;
        proof {
            lemma_filter_ends(open@, rest);
        }
        while k < open.len()
            invariant
                k <= open@.len(),
                rest == (|p: PeerId| !chosen@.contains(p)),
                others@ == open@.subrange(0, k as int).filter(rest),
            decreases open@.len() - k,
        {
            proof {
                lemma_filter_next(open@, k as int, rest);
            }
            if !vec_contains(&chosen, &open[k]) {
                others.push(open[k]);
            }
            k += 1;
        }
        (chosen, others)
    }

    /// Goes through the wanted blocks and asks chosen peers for each block
    /// that is under way from no peer.
    fn ask_on_tick(&mut self, presences: &BlockPresenceManager, now: u64) -> (commands: Vec<Command>)
        requires
            old(self).wf(),
            presences.wf(),
        ensures
            final(self)@ == (SessionView {
                in_flight: asked_on_tick(
                    presences@,
                    peers_of(old(self)@.peers),
                    old(self)@.in_flight,
                    old(self)@.declined,
                    old(self)@.wanted,
                    now,
                ),
                ..old(self)@
            }),
            commands@ == tick_commands(
                presences@,
                peers_of(old(self)@.peers),
                old(self)@.in_flight,
                old(self)@.declined,
                old(self)@.wanted,
                now,
            ),
            final(self).wf(),
    {
        let ghost before = self@;
        let ghost m = presences@;
        let ghost cands = peers_of(before.peers);
        let wanted = self.wanted.to_vec();
        let mut commands: Vec<Command> = Vec::new();
        let mut i: usize = 0;
        while i < wanted.len()
            invariant
                presences.wf(),
                m == presences@,
                cands == peers_of(before.peers),
                wanted@ == before.wanted,
                i <= wanted@.len(),
                self.wf(),
                self@ == (SessionView {
                    in_flight: asked_on_tick(
                        m,
                        cands,
                        before.in_flight,
                        before.declined,
                        wanted@.subrange(0, i as int),
                        now,
                    ),
                    ..before
                }),
                commands@ == tick_commands(
                    m,
                    cands,
                    before.in_flight,
                    before.declined,
                    wanted@.subrange(0, i as int),
                    now,
                ),
            decreases wanted@.len() - i,
        {
            assert(wanted@.subrange(0, i + 1).drop_last() =~= wanted@.subrange(0, i as int));
            let c = wanted[i];
            if !self.flight_for(&c) {
                let ghost r = self@.in_flight;
                let ghost base = commands@;
                let (chosen, others) = self.select_peers(c, presences);
                let ghost to_flight = |p: PeerId| Flight { cid: c, peer: p };
                let ghost to_block = |p: PeerId| Command::WantBlock { peer: p, cid: c };
                let ghost to_have = |p: PeerId| Command::WantHave { peer: p, cid: c };
                let mut j: usize = 0;
                proof {
                    assert(chosen@.subrange(0, 0).map_values(to_block) =~= Seq::<Command>::empty());
                    assert(base + Seq::<Command>::empty() =~= base);
                    assert(chosen@.subrange(0, 0).map_values(to_flight) =~= Seq::<Flight>::empty());
                }
                while j < chosen.len()
                    invariant
                        j <= chosen@.len(),
                        self.wf(),
                        to_flight == (|p: PeerId| Flight { cid: c, peer: p }),
                        to_block == (|p: PeerId| Command::WantBlock { peer: p, cid: c }),
                        self@ == (SessionView {
                            in_flight: crate::keymap::with_entries(
                                r,
                                chosen@.subrange(0, j as int).map_values(to_flight),
                                now,
                            ),
                            ..before
                        }),
                        commands@ == base + chosen@.subrange(0, j as int).map_values(to_block),
                    decreases chosen@.len() - j,
                {
                    proof {
                        let part = chosen@.subrange(0, j as int);
                        let next = chosen@.subrange(0, j + 1);
                        assert(next.map_values(to_flight).drop_last() =~= part.map_values(to_flight));
                        assert(next.map_values(to_flight).last() == to_flight(chosen@[j as int]));
                        assert((base + part.map_values(to_block)).push(to_block(chosen@[j as int]))
                            =~= base + next.map_values(to_block));
                    }
                    self.in_flight.set(Flight { cid: c, peer: chosen[j] }, now);
                    commands.push(Command::WantBlock { peer: chosen[j], cid: c });
                    j += 1;
                }
                assert(chosen@.subrange(0, chosen@.len() as int) =~= chosen@);
                let ghost mid = commands@;
                let mut k: usize = 0;
                proof {
                    assert(others@.subrange(0, 0).map_values(to_have) =~= Seq::<Command>::empty());
                    assert(mid + Seq::<Command>::empty() =~= mid);
                }
                while k < others.len()
                    invariant
                        k <= others@.len(),
                        to_have == (|p: PeerId| Command::WantHave { peer: p, cid: c }),
                        commands@ == mid + others@.subrange(0, k as int).map_values(to_have),
                    decreases others@.len() - k,
                {
                    proof {
                        let part = others@.subrange(0, k as int);
                        let next = others@.subrange(0, k + 1);
                        assert((mid + part.map_values(to_have)).push(to_have(others@[k as int]))
                            =~= mid + next.map_values(to_have));
                    }
                    commands.push(Command::WantHave { peer: others[k], cid: c });
                    k += 1;
                }
                assert(others@.subrange(0, others@.len() as int) =~= others@);
            }
            i += 1;
        }
        assert(wanted@.subrange(0, wanted@.len() as int) =~= wanted@);
        commands
    }

    /// Looks at the session's timers at time `now`, where `presences` holds
    /// what the peers have said about their blocks. Returns what is to be
    /// done; see [`SessionView::tick_all_commands`].
    pub fn tick(&mut self, presences: &BlockPresenceManager, now: u64) -> (commands: Vec<Command>)
        requires
            old(self).wf(),
            presences.wf(),
        ensures
            final(self)@ == old(self)@.tick(presences@, now),
            commands@ == old(self)@.tick_all_commands(presences@, now),
            final(self).wf(),
    {
        let ghost before = self@;
        let active = !self.stopped && self.wanted.len() > 0;
        let search_due = active && self.is_discovery() && self.search_armed && now
            >= self.search_at;
        let rebroadcast_due = active && now >= self.rebroadcast_at;
        let tick_due = active && now >= self.next_tick_at;
        let n: u32 = if self.consecutive_ticks == u32::MAX {
            u32::MAX
        } else {
            self.consecutive_ticks + 1
        };
        let stalls = n >= STALLED_TICKS;
        let steady = !self.is_discovery();
        let wanted = self.wanted.to_vec();
        let mut commands: Vec<Command> = Vec::new();
        proof {
            let w = before.wanted;
            assert(for_each(w, |c: Cid| each_command(Each::Find, c)) =~= for_each(
                w,
                |c: Cid| Command::FindProviders { cid: c },
            ));
            assert(for_each(w, |c: Cid| each_command(Each::WantHave, c)) =~= for_each(
                w,
                |c: Cid| Command::BroadcastWantHave { cid: c },
            ));
        }
        if search_due {
            append_each(&mut commands, &wanted, Each::Find);
            self.search_armed = false;
        }
        assert(commands@ =~= before.search_commands(now));
        if rebroadcast_due {
            append_each(&mut commands, &wanted, Each::WantHave);
            self.rebroadcast_at = saturating_add(now, self.config.rebroadcast_delay);
        }
        assert(commands@ =~= before.search_commands(now) + before.rebroadcast_commands(now));
        if tick_due {
            if stalls {
                append_each(&mut commands, &wanted, Each::WantHave);
                append_each(&mut commands, &wanted, Each::Find);
                self.phase = Phase::Discovery;
            } else if steady {
                let mut asks = self.ask_on_tick(presences, now);
                commands.append(&mut asks);
            } else {
                append_each(&mut commands, &wanted, Each::WantHave);
            }
            self.consecutive_ticks = n;
            self.next_tick_at = saturating_add(now, tick_delay_after(n));
        }
        assert(commands@ =~= before.tick_all_commands(presences@, now));
        commands
    }

    /// Looks at time `now` at the want-blocks that are under way. Where the
    /// session is set to do so, a peer that has had three round trips and a
    /// second to send a block is taken to have declined it. Returns what is
    /// to be done: every peer is asked for each block that all candidates
    /// have now declined.
    pub fn check_watchdogs(&mut self, now: u64) -> (commands: Vec<Command>)
        requires
            old(self).wf(),
        ensures
            final(self)@ == old(self)@.check_watchdogs(now),
            commands@ == old(self)@.watchdog_commands(now),
            final(self).wf(),
    {
        if self.stopped || !self.config.simulate_dont_haves_on_timeout {
            return Vec::new();
        }
        let ghost before = self@;
        let ghost a = before.in_flight;
        let ghost gone = |e: (Flight, u64)| overdue(before.peers, e, now);
        let ghost stay = |e: (Flight, u64)| !overdue(before.peers, e, now);
        let ghost cid_of = |f: Flight| f.cid;
        let mut late: Vec<Flight> = Vec::new();
        let mut late_cids: Vec<Cid> = Vec::new();
        let mut keep: Vec<(Flight, u64)> = Vec::new();
        let mut i: usize = 0;
        proof {
            lemma_filter_ends(a, gone);
            lemma_filter_ends(a, stay);
            lemma_filter_keys(a, stay);
            assert(keys_of(Seq::<(Flight, u64)>::empty()) =~= Seq::<Flight>::empty());
            assert(Seq::<Flight>::empty().map_values(cid_of) =~= Seq::<Cid>::empty());
        }
        while i < self.in_flight.len()
            invariant
                self.wf(),
                self@ == before,
                a == before.in_flight,
                i <= a.len(),
                gone == (|e: (Flight, u64)| overdue(before.peers, e, now)),
                stay == (|e: (Flight, u64)| !overdue(before.peers, e, now)),
                cid_of == (|f: Flight| f.cid),
                late@ == keys_of(a.subrange(0, i as int).filter(gone)),
                late_cids@ == late@.map_values(cid_of),
                keep@ == a.subrange(0, i as int).filter(stay),
            decreases a.len() - i,
        {
            proof {
                lemma_filter_next(a, i as int, gone);
                lemma_filter_next(a, i as int, stay);
                let f = a.subrange(0, i as int).filter(gone);
                assert(keys_of(f.push(a[i as int])) =~= keys_of(f).push(a[i as int].0));
                assert(late@.push(a[i as int].0).map_values(cid_of) =~= late@.map_values(
                    cid_of,
                ).push(a[i as int].0.cid));
            }
            let e = self.in_flight.entry(i);
            let rtt = match self.peers.get(&e.0.peer) {
                Some(known) => known.rtt_ewma,
                None => 0,
            };
            if now >= saturating_add(e.1, watchdog(rtt)) {
                late.push(e.0);
                late_cids.push(e.0.cid);
            } else {
                keep.push(e);
            }
            i += 1;
        }
        self.in_flight.replace(keep);
        self.declined.extend(&late);
        self.escalate(&late_cids)
    }

    /// Takes note that `peer` has disconnected. A want-block that was under
    /// way to it is forgotten, so that the next idle tick asks another peer.
    pub fn peer_disconnected(&mut self, peer: &PeerId)
        requires
            old(self).wf(),
        ensures
            final(self)@ == old(self)@.peer_disconnected(*peer),
            final(self).wf(),
    {
        let ghost before = self@;
        self.peers.remove_peer(peer);
        let ghost keep_flight = |e: (Flight, u64)| e.0.peer != *peer;
        let mut flights: Vec<(Flight, u64)> = Vec::new();
        let mut i: usize = 0;
        proof {
            lemma_filter_ends(before.in_flight, keep_flight);
            lemma_filter_keys(before.in_flight, keep_flight);
        }
        while i < self.in_flight.len()
            invariant
                self.in_flight@ == before.in_flight,
                i <= before.in_flight.len(),
                keep_flight == (|e: (Flight, u64)| e.0.peer != *peer),
                flights@ == before.in_flight.subrange(0, i as int).filter(keep_flight),
            decreases before.in_flight.len() - i,
        {
            proof {
                lemma_filter_next(before.in_flight, i as int, keep_flight);
            }
            let e = self.in_flight.entry(i);
            if !e.0.peer.same(peer) {
                flights.push(e);
            }
            i += 1;
        }
        self.in_flight.replace(flights);
        let ghost keep = |f: Flight| f.peer != *peer;
        let mut declined: Vec<Flight> = Vec::new();
        let mut j: usize = 0;
        proof {
            lemma_filter_ends(before.declined, keep);
            lemma_filter_no_duplicates(before.declined, keep);
        }
        while j < self.declined.len()
            invariant
                self.declined@ == before.declined,
                j <= before.declined.len(),
                keep == (|f: Flight| f.peer != *peer),
                declined@ == before.declined.subrange(0, j as int).filter(keep),
            decreases before.declined.len() - j,
        {
            proof {
                lemma_filter_next(before.declined, j as int, keep);
            }
            let f = self.declined.get(j);
            if !f.peer.same(peer) {
                declined.push(f);
            }
            j += 1;
        }
        self.declined.replace(declined);
    }

    /// Takes note that the callers no longer wait for `cids`. The result
    /// asks to release those of them that were wanted.
    pub fn cancel_wants(&mut self, cids: &Vec<Cid>) -> (commands: Vec<Command>)
        requires
            old(self).wf(),
        ensures
            final(self)@ == old(self)@.cancel_wants(cids@),
            commands@ == old(self)@.cancel_wants_commands(cids@),
            final(self).wf(),
    {
        let ticks = self.consecutive_ticks;
        let next = self.next_tick_at;
        let given_up = self.take_blocks(cids, 0);
        self.consecutive_ticks = ticks;
        self.next_tick_at = next;
        let ghost make = |c: Cid| Command::Release { cid: c };
        let mut commands: Vec<Command> = Vec::new();
        let mut i: usize = 0;
        proof {
            lemma_for_each_ends(given_up@, make);
        }
        while i < given_up.len()
            invariant
                i <= given_up@.len(),
                make == (|c: Cid| Command::Release { cid: c }),
                commands@ == for_each(given_up@.subrange(0, i as int), make),
            decreases given_up@.len() - i,
        {
            proof {
                lemma_for_each_next(given_up@, i as int, make);
            }
            commands.push(Command::Release { cid: given_up[i] });
            i += 1;
        }
        commands
    }

    /// Stops the session. The result asks to release every block that was
    /// wanted. From now on the session takes nothing in and asks for
    /// nothing.
    pub fn stop(&mut self) -> (commands: Vec<Command>)
        requires
            old(self).wf(),
        ensures
            final(self)@ == old(self)@.stop(),
            commands@ == old(self)@.stop_commands(),
            final(self).wf(),
    {
        let wanted = self.wanted.to_vec();
        let ghost make = |c: Cid| Command::Release { cid: c };
        let mut commands: Vec<Command> = Vec::new();
        let mut i: usize = 0;
        proof {
            lemma_for_each_ends(wanted@, make);
        }
        while i < wanted.len()
            invariant
                i <= wanted@.len(),
                make == (|c: Cid| Command::Release { cid: c }),
                commands@ == for_each(wanted@.subrange(0, i as int), make),
            decreases wanted@.len() - i,
        {
            proof {
                lemma_for_each_next(wanted@, i as int, make);
            }
            commands.push(Command::Release { cid: wanted[i] });
            i += 1;
        }
        assert(wanted@.subrange(0, wanted@.len() as int) =~= wanted@);
        self.stopped = true;
        self.wanted = KeySet::new();
        self.live = KeySet::new();
        self.in_flight = KeyMap::new();
        self.declined = KeySet::new();
        self.search_armed = false;
        assert(keys_of(Seq::<(Flight, u64)>::empty()) =~= Seq::<Flight>::empty());
        commands
    }
}

} // verus!
