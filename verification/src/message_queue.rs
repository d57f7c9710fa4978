//! The queue of what is to be sent to one peer.
//!
//! Wants and cancels are gathered while the queue waits, put into one message
//! when the wait is over, and kept track of until the peer has answered. The
//! queue does no sending itself: [`MessageQueue::poll`] hands out the next
//! message, and [`MessageQueue::send_complete`] is told how the sending went.

use crate::ident::{Cid, Key};
use crate::keymap::{keys_of, lemma_filter_keys, with_entry, without_entries, KeyMap};
use crate::keyset::{difference, insert_key, lemma_filter_ends, lemma_filter_next, union, KeySet};
use crate::wantlist::{added_all, added_entries, cids_of, removed_all, well_formed, Entry, WantType, Wantlist};
use vstd::prelude::*;

verus! {

/// How long wants are gathered before a message is made, in milliseconds.
pub const DEFAULT_DEBOUNCE: u64 = 20;

/// The size of the largest message, in bytes.
pub const DEFAULT_MAX_MESSAGE_SIZE: u64 = 16384;

/// How long a peer is given to answer a want, in milliseconds, before any
/// round trip was measured.
pub const DEFAULT_RESPONSE_TIMEOUT: u64 = 2000;

/// How often the wants that are still open are sent again, in milliseconds.
pub const DEFAULT_REBROADCAST_INTERVAL: u64 = 30000;

/// After how many failed sendings in a row the peer counts as out of reach.
pub const DEFAULT_MAX_FAILURES: u32 = 5;

/// The wait after the first failed sending, in milliseconds.
pub const BACKOFF_BASE: u64 = 100;

/// The longest wait after a failed sending, in milliseconds.
pub const BACKOFF_CAP: u64 = 60000;

/// The bytes that an entry takes up in a message besides its digest.
pub const ENTRY_OVERHEAD: u64 = 16;

/// The states of a queue.
#[derive(Clone, Copy, PartialEq, Eq, Structural, Debug)]
pub enum QueueState {
    /// Nothing is waiting to be sent.
    Idle,
    /// Wants or cancels wait for the next message.
    Queued,
    /// A message was handed out and the outcome is not known yet.
    Sending,
    /// The queue was stopped, or the peer counts as out of reach.
    Closing,
}

/// The settings of a queue.
#[derive(Clone, Copy, PartialEq, Eq, Structural, Debug)]
pub struct QueueConfig {
    pub debounce: u64,
    pub max_message_size: u64,
    pub response_timeout: u64,
    pub rebroadcast_interval: u64,
    pub max_failures: u32,
}

/// How a sending ended, as far as the queue is concerned.
#[derive(Clone, Copy, PartialEq, Eq, Structural, Debug)]
pub enum SendOutcome {
    /// The message went out.
    Done,
    /// The message did not go out; what it held is queued again.
    Retry,
    /// The message did not go out, and the peer now counts as out of reach.
    Unreachable,
    /// No message was being sent.
    Ignored,
}

/// `a + b`, or the largest number where the sum does not fit.
pub open spec fn sat_add(a: u64, b: u64) -> u64 {
    if a + b > u64::MAX {
        u64::MAX
    } else {
        (a + b) as u64
    }
}

/// The wait after the `n + 1`-th failed sending in a row: 100 ms doubled `n`
/// times, and at most one minute.
pub open spec fn backoff(n: nat) -> nat
    decreases n,
{
    if n == 0 {
        BACKOFF_BASE as nat
    } else if 2 * backoff((n - 1) as nat) > BACKOFF_CAP {
        BACKOFF_CAP as nat
    } else {
        2 * backoff((n - 1) as nat)
    }
}

/// The time a peer is given to answer, for a measured round-trip time: twice
/// the round trip on top of the default.
pub open spec fn response_timeout_for(rtt: u64) -> u64 {
    sat_add(sat_add(rtt, rtt), DEFAULT_RESPONSE_TIMEOUT)
}

/// The entry that cancels the want for `cid`.
pub open spec fn cancel_entry(cid: Cid) -> Entry {
    Entry { cid, priority: 0, want_type: WantType::Block, cancel: true, send_dont_have: false }
}

/// The entries that cancel the wants for `cids`.
pub open spec fn cancel_entries(cids: Seq<Cid>) -> Seq<Entry> {
    cids.map_values(|c: Cid| cancel_entry(c))
}

/// The bytes that `e` takes up in a message.
pub open spec fn entry_size(e: Entry) -> int {
    ENTRY_OVERHEAD + e.cid.hash.size
}

/// How many entries at the head of `s` fit into `budget` bytes together.
pub open spec fn fitting(s: Seq<Entry>, budget: int) -> int
    decreases s.len(),
{
    if s.len() == 0 || entry_size(s[0]) > budget {
        0
    } else {
        1 + fitting(s.drop_first(), budget - entry_size(s[0]))
    }
}

/// How many entries of `s` go into the next message of at most `max` bytes:
/// as many as fit, and one where not even the first fits.
pub open spec fn chunk_len(s: Seq<Entry>, max: u64) -> int {
    if s.len() == 0 {
        0
    } else if fitting(s, max as int) == 0 {
        1
    } else {
        fitting(s, max as int)
    }
}

/// Whether `flight` holds a want, not a cancel, for `cid`.
pub open spec fn in_flight_want(flight: Seq<Entry>, cid: Cid) -> bool {
    exists|i: int| 0 <= i < flight.len() && (#[trigger] flight[i]).cid == cid && !flight[i].cancel
}

/// The times of sending after the wants of `sent` went out at `now`, except
/// those whose identifier is in `skip`.
pub open spec fn stamped(a: Seq<(Cid, u64)>, sent: Seq<Entry>, skip: Seq<Cid>, now: u64) -> Seq<
    (Cid, u64),
>
    decreases sent.len(),
{
    if sent.len() == 0 {
        a
    } else {
        let r = stamped(a, sent.drop_last(), skip, now);
        if skip.contains(sent.last().cid) || sent.last().cancel {
            r
        } else {
            with_entry(r, sent.last().cid, now)
        }
    }
}

/// The cancels that wait, after the cancels of a message that did not go out
/// were put back.
pub open spec fn requeued_cancels(cancels: Seq<Cid>, flight: Seq<Entry>) -> Seq<Cid>
    decreases flight.len(),
{
    if flight.len() == 0 {
        cancels
    } else {
        let r = requeued_cancels(cancels, flight.drop_last());
        if flight.last().cancel {
            insert_key(r, flight.last().cid)
        } else {
            r
        }
    }
}

/// One more than `f`, or the largest number where `f` is the largest.
pub open spec fn one_more(f: u32) -> u32 {
    if f == u32::MAX {
        u32::MAX
    } else {
        (f + 1) as u32
    }
}

/// Whether a want sent at `sent_at` has waited `timeout` milliseconds at
/// `now`.
pub open spec fn is_expired(sent_at: u64, now: u64, timeout: u64) -> bool {
    now >= sent_at && now - sent_at >= timeout
}

/// The fitting count lies within the sequence, and what it counts fits.
pub proof fn lemma_fitting(s: Seq<Entry>, budget: int)
    ensures
        0 <= fitting(s, budget) <= s.len(),
    decreases s.len(),
{
    if s.len() == 0 || entry_size(s[0]) > budget {
    } else {
        lemma_fitting(s.drop_first(), budget - entry_size(s[0]));
    }
}

/// The whole state of a queue.
pub ghost struct QueueView {
    pub config: QueueConfig,
    pub state: QueueState,
    /// The wants that wait for the next message, highest priority first.
    pub pending: Seq<Entry>,
    /// The cancels that wait for the next message, oldest first.
    pub cancels: Seq<Cid>,
    /// The message that is being sent.
    pub in_flight: Seq<Entry>,
    /// The wants that went out and were not taken back.
    pub outstanding: Seq<Entry>,
    /// The wants that went out and were not answered, with the time at which
    /// each went out.
    pub awaiting: Seq<(Cid, u64)>,
    /// The time from which on the next message may be made.
    pub ready_at: u64,
    /// How many sendings failed in a row.
    pub failures: u32,
    /// The time at which the open wants are to be sent again.
    pub rebroadcast_at: u64,
}

impl QueueView {
    /// The state is in order: the lists are well formed, an idle queue holds
    /// nothing to send, and a message is in flight only while sending.
    pub open spec fn wf(self) -> bool {
        &&& well_formed(self.pending)
        &&& well_formed(self.outstanding)
        &&& self.cancels.no_duplicates()
        &&& keys_of(self.awaiting).no_duplicates()
        &&& self.state is Idle ==> self.pending.len() == 0 && self.cancels.len() == 0
        &&& !(self.state is Sending) ==> self.in_flight.len() == 0
    }

    /// Everything that waits to be sent, in the order of sending: the cancels,
    /// then the wants.
    pub open spec fn queue(self) -> Seq<Entry> {
        cancel_entries(self.cancels) + self.pending
    }

    /// An idle queue that has got work starts to wait for the next message.
    pub open spec fn wake(self, now: u64) -> QueueView {
        if self.state is Idle && (self.pending.len() > 0 || self.cancels.len() > 0) {
            QueueView {
                state: QueueState::Queued,
                ready_at: sat_add(now, self.config.debounce),
                ..self
            }
        } else {
            self
        }
    }

    /// The state after wants were handed in. A closing queue takes nothing.
    /// A want revokes a cancel that waits for the same block.
    pub open spec fn add_wants(
        self,
        want_blocks: Seq<Cid>,
        want_haves: Seq<Cid>,
        priority: i32,
        send_dont_have: bool,
        now: u64,
    ) -> QueueView {
        if self.state is Closing {
            self
        } else {
            (QueueView {
                pending: added_all(
                    added_all(self.pending, want_blocks, priority, WantType::Block, send_dont_have),
                    want_haves,
                    priority,
                    WantType::Have,
                    send_dont_have,
                ),
                cancels: difference(self.cancels, want_blocks + want_haves),
                ..self
            }).wake(now)
        }
    }

    /// Whether the peer was, or is just being, told of a want for `cid`.
    pub open spec fn peer_told(self, cid: Cid) -> bool {
        cids_of(self.outstanding).contains(cid) || in_flight_want(self.in_flight, cid)
    }

    /// The state after cancels were handed in. A want that waits is dropped;
    /// a cancel is queued only for a block of which the peer was told.
    pub open spec fn add_cancels(self, cids: Seq<Cid>, now: u64) -> QueueView {
        if self.state is Closing {
            self
        } else {
            (QueueView {
                pending: removed_all(self.pending, cids),
                cancels: union(self.cancels, cids.filter(|c: Cid| self.peer_told(c))),
                outstanding: removed_all(self.outstanding, cids),
                awaiting: without_entries(self.awaiting, cids),
                ..self
            }).wake(now)
        }
    }

    /// Whether a message can be made at `now`.
    pub open spec fn due(self, now: u64) -> bool {
        self.state is Queued && now >= self.ready_at
    }

    /// The message that is made at `now`, if one is.
    pub open spec fn next_message(self, now: u64) -> Option<Seq<Entry>> {
        if self.due(now) && self.queue().len() > 0 {
            Some(self.queue().subrange(0, chunk_len(self.queue(), self.config.max_message_size)))
        } else {
            None
        }
    }

    /// The state after a message was asked for at `now`.
    pub open spec fn poll(self, now: u64) -> QueueView {
        if !self.due(now) {
            self
        } else if self.queue().len() == 0 {
            QueueView { state: QueueState::Idle, ..self }
        } else {
            let k = chunk_len(self.queue(), self.config.max_message_size);
            let kc = if k <= self.cancels.len() {
                k
            } else {
                self.cancels.len() as int
            };
            QueueView {
                state: QueueState::Sending,
                in_flight: self.queue().subrange(0, k),
                cancels: self.cancels.subrange(kc, self.cancels.len() as int),
                pending: self.pending.subrange(k - kc, self.pending.len() as int),
                ..self
            }
        }
    }

    /// How the sending that is under way ends for the queue.
    pub open spec fn outcome(self, ok: bool) -> SendOutcome {
        if !(self.state is Sending) {
            SendOutcome::Ignored
        } else if ok {
            SendOutcome::Done
        } else if self.failures + 1 >= self.config.max_failures {
            SendOutcome::Unreachable
        } else {
            SendOutcome::Retry
        }
    }

    /// The state after the sending ended at `now`.
    pub open spec fn send_complete(self, ok: bool, now: u64) -> QueueView {
        match self.outcome(ok) {
            SendOutcome::Ignored => self,
            SendOutcome::Done => QueueView {
                state: if self.pending.len() > 0 || self.cancels.len() > 0 {
                    QueueState::Queued
                } else {
                    QueueState::Idle
                },
                ready_at: now,
                failures: 0,
                in_flight: Seq::empty(),
                outstanding: added_entries(self.outstanding, self.in_flight, self.cancels),
                awaiting: stamped(self.awaiting, self.in_flight, self.cancels, now),
                ..self
            },
            SendOutcome::Unreachable => QueueView {
                state: QueueState::Closing,
                failures: one_more(self.failures),
                in_flight: Seq::empty(),
                pending: Seq::empty(),
                cancels: Seq::empty(),
                ..self
            },
            SendOutcome::Retry => QueueView {
                state: QueueState::Queued,
                ready_at: sat_add(now, backoff(self.failures as nat) as u64),
                failures: one_more(self.failures),
                in_flight: Seq::empty(),
                pending: added_entries(self.pending, self.in_flight, self.cancels),
                cancels: requeued_cancels(self.cancels, self.in_flight),
                ..self
            },
        }
    }

    /// The state after the peer sent the blocks `cids`: its wants for them
    /// are settled, and nothing more is said to it about them.
    pub open spec fn resolve(self, cids: Seq<Cid>) -> QueueView {
        QueueView {
            pending: removed_all(self.pending, cids),
            outstanding: removed_all(self.outstanding, cids),
            awaiting: without_entries(self.awaiting, cids),
            ..self
        }
    }

    /// The state after the peer answered for `cids`.
    pub open spec fn response_received(self, cids: Seq<Cid>) -> QueueView {
        QueueView { awaiting: without_entries(self.awaiting, cids), ..self }
    }

    /// The wants that have waited too long for an answer at `now`.
    pub open spec fn expired(self, now: u64) -> Seq<Cid> {
        keys_of(
            self.awaiting.filter(
                |e: (Cid, u64)| is_expired(e.1, now, self.config.response_timeout),
            ),
        )
    }

    /// The state after the wants that have waited too long were taken out.
    pub open spec fn expire(self, now: u64) -> QueueView {
        QueueView {
            awaiting: self.awaiting.filter(
                |e: (Cid, u64)| !is_expired(e.1, now, self.config.response_timeout),
            ),
            ..self
        }
    }

    /// Whether the open wants are sent again at `now`.
    pub open spec fn rebroadcast_due(self, now: u64) -> bool {
        !(self.state is Closing) && now >= self.rebroadcast_at
    }

    /// The state after the time for sending the open wants again was looked
    /// at.
    pub open spec fn rebroadcast(self, now: u64) -> QueueView {
        if self.rebroadcast_due(now) {
            (QueueView {
                pending: added_entries(self.pending, self.outstanding, Seq::empty()),
                rebroadcast_at: sat_add(now, self.config.rebroadcast_interval),
                ..self
            }).wake(now)
        } else {
            self
        }
    }

    /// The state after the queue was stopped.
    pub open spec fn stop(self) -> QueueView {
        QueueView {
            state: QueueState::Closing,
            pending: Seq::empty(),
            cancels: Seq::empty(),
            in_flight: Seq::empty(),
            outstanding: Seq::empty(),
            awaiting: Seq::empty(),
            ..self
        }
    }
}

/// `a + b`, or the largest number where the sum does not fit.
pub fn saturating_add(a: u64, b: u64) -> (r: u64)
    ensures
        r == sat_add(a, b),
{
    if a > u64::MAX - b {
        u64::MAX
    } else {
        a + b
    }
}

/// The wait after the `n + 1`-th failed sending in a row.
pub fn backoff_delay(n: u32) -> (d: u64)
    ensures
        d == backoff(n as nat),
        BACKOFF_BASE <= d <= BACKOFF_CAP,
{
    let mut d: u64 = BACKOFF_BASE;
    let mut i: u32 = 0;
    while i < n
        invariant
            i <= n,
            d == backoff(i as nat),
            BACKOFF_BASE <= d <= BACKOFF_CAP,
        decreases n - i,
    {
        if 2 * d > BACKOFF_CAP {
            d = BACKOFF_CAP;
        } else {
            d = 2 * d;
        }
        i += 1;
    }
    d
}

/// The time a peer is given to answer, for a measured round-trip time.
pub fn response_timeout(rtt: u64) -> (t: u64)
    ensures
        t == response_timeout_for(rtt),
{
    saturating_add(saturating_add(rtt, rtt), DEFAULT_RESPONSE_TIMEOUT)
}

/// The settings of a queue that are used unless the caller says otherwise.
pub open spec fn default_queue_config() -> QueueConfig {
    QueueConfig {
        debounce: DEFAULT_DEBOUNCE,
        max_message_size: DEFAULT_MAX_MESSAGE_SIZE,
        response_timeout: DEFAULT_RESPONSE_TIMEOUT,
        rebroadcast_interval: DEFAULT_REBROADCAST_INTERVAL,
        max_failures: DEFAULT_MAX_FAILURES,
    }
}

impl QueueConfig {
    /// The settings that are used unless the caller says otherwise.
    pub fn new() -> (c: QueueConfig)
        ensures
            c == default_queue_config(),
    {
        QueueConfig {
            debounce: DEFAULT_DEBOUNCE,
            max_message_size: DEFAULT_MAX_MESSAGE_SIZE,
            response_timeout: DEFAULT_RESPONSE_TIMEOUT,
            rebroadcast_interval: DEFAULT_REBROADCAST_INTERVAL,
            max_failures: DEFAULT_MAX_FAILURES,
        }
    }
}

/// A cancel takes precedence: after the wants for some blocks were taken
/// back, no want for any of them waits to be sent, and none counts as open.
pub proof fn lemma_cancel_precedence(v: QueueView, cids: Seq<Cid>, now: u64, c: Cid)
    requires
        v.wf(),
        cids.contains(c),
        !(v.state is Closing),
    ensures
        crate::wantlist::entry_of(v.add_cancels(cids, now).pending, c) is None,
        crate::wantlist::entry_of(v.add_cancels(cids, now).outstanding, c) is None,
        v.peer_told(c) ==> v.add_cancels(cids, now).cancels.contains(c),
{
    crate::wantlist::lemma_removed_all(v.pending, cids, c);
    crate::wantlist::lemma_removed_all(v.outstanding, cids, c);
    let pred = |x: Cid| v.peer_told(x);
    crate::keyset::lemma_filter_contains(cids, pred, c);
    crate::keyset::lemma_union(v.cancels, cids.filter(pred), c);
}

/// No cancel is dropped: a cancel that waits when a message is made is in
/// that message or waits on.
pub proof fn lemma_cancels_kept(v: QueueView, now: u64, c: Cid)
    requires
        v.wf(),
        v.cancels.contains(c),
    ensures
        v.poll(now).cancels.contains(c) || (v.next_message(now) matches Some(m) && m.contains(
            cancel_entry(c),
        )),
{
    if v.due(now) && v.queue().len() > 0 {
        let q = v.queue();
        let k = chunk_len(q, v.config.max_message_size);
        lemma_fitting(q, v.config.max_message_size as int);
        let i = choose|i: int| 0 <= i < v.cancels.len() && v.cancels[i] == c;
        let kc = if k <= v.cancels.len() {
            k
        } else {
            v.cancels.len() as int
        };
        if i < kc {
            assert(q[i] == cancel_entry(c));
            assert(q.subrange(0, k)[i] == cancel_entry(c));
        } else {
            assert(v.cancels.subrange(kc, v.cancels.len() as int)[i - kc] == c);
        }
    }
}

/// A queue that closes stays closed and silent: whatever is handed in,
/// whatever time it is and however a sending ends, it stays as it is and
/// makes no message.
pub proof fn lemma_closing_is_final(
    v: QueueView,
    want_blocks: Seq<Cid>,
    want_haves: Seq<Cid>,
    priority: i32,
    send_dont_have: bool,
    ok: bool,
    now: u64,
)
    requires
        v.state is Closing,
    ensures
        v.add_wants(want_blocks, want_haves, priority, send_dont_have, now) == v,
        v.add_cancels(want_blocks, now) == v,
        v.poll(now) == v,
        v.next_message(now) is None,
        v.send_complete(ok, now) == v,
        v.rebroadcast(now) == v,
        v.stop().state is Closing,
{
}

/// A want that is handed in waits to be sent: after wants were handed to a
/// queue that is not closing, the queue holds an entry for each of them and
/// is no longer idle.
pub proof fn lemma_wants_are_queued(
    v: QueueView,
    want_blocks: Seq<Cid>,
    want_haves: Seq<Cid>,
    priority: i32,
    send_dont_have: bool,
    now: u64,
    c: Cid,
)
    requires
        v.wf(),
        !(v.state is Closing),
        want_blocks.contains(c) || want_haves.contains(c),
    ensures
        crate::wantlist::entry_of(
            v.add_wants(want_blocks, want_haves, priority, send_dont_have, now).pending,
            c,
        ) is Some,
        !(v.add_wants(want_blocks, want_haves, priority, send_dont_have, now).state is Idle),
{
    let a = added_all(v.pending, want_blocks, priority, WantType::Block, send_dont_have);
    crate::wantlist::lemma_added_all(
        v.pending,
        want_blocks,
        priority,
        WantType::Block,
        send_dont_have,
        c,
    );
    crate::wantlist::lemma_added_all(a, want_haves, priority, WantType::Have, send_dont_have, c);
    let b = added_all(a, want_haves, priority, WantType::Have, send_dont_have);
    if b.len() == 0 {
        assert(cids_of(b) =~= Seq::<Cid>::empty());
    }
}

/// The queue of what is to be sent to one peer.
pub struct MessageQueue {
    config: QueueConfig,
    state: QueueState,
    pending: Wantlist,
    cancels: KeySet<Cid>,
    in_flight: Vec<Entry>,
    outstanding: Wantlist,
    awaiting: KeyMap<Cid, u64>,
    ready_at: u64,
    failures: u32,
    rebroadcast_at: u64,
}

impl View for MessageQueue {
    type V = QueueView;

    closed spec fn view(&self) -> QueueView {
        QueueView {
            config: self.config,
            state: self.state,
            pending: self.pending@,
            cancels: self.cancels@,
            in_flight: self.in_flight@,
            outstanding: self.outstanding@,
            awaiting: self.awaiting@,
            ready_at: self.ready_at,
            failures: self.failures,
            rebroadcast_at: self.rebroadcast_at,
        }
    }
}

impl MessageQueue {
    /// The state is in order; see [`QueueView::wf`].
    pub open spec fn wf(&self) -> bool {
        self@.wf()
    }

    /// An idle queue with the settings `config`, made at time `now`.
    pub fn new(config: QueueConfig, now: u64) -> (q: Self)
        ensures
            q.wf(),
            q@ == (QueueView {
                config,
                state: QueueState::Idle,
                pending: Seq::empty(),
                cancels: Seq::empty(),
                in_flight: Seq::empty(),
                outstanding: Seq::empty(),
                awaiting: Seq::empty(),
                ready_at: 0,
                failures: 0,
                rebroadcast_at: sat_add(now, config.rebroadcast_interval),
            }),
    {
        MessageQueue {
            config,
            state: QueueState::Idle,
            pending: Wantlist::new(),
            cancels: KeySet::new(),
            in_flight: Vec::new(),
            outstanding: Wantlist::new(),
            awaiting: KeyMap::new(),
            ready_at: 0,
            failures: 0,
            rebroadcast_at: saturating_add(now, config.rebroadcast_interval),
        }
    }

    pub fn state(&self) -> (s: QueueState)
        ensures
            s == self@.state,
    {
        self.state
    }

    /// The time from which on the next message may be made; it counts while
    /// the queue is in the state `Queued`.
    pub fn ready_at(&self) -> (t: u64)
        ensures
            t == self@.ready_at,
    {
        self.ready_at
    }

    /// When the want for `cid` went out, if it is still unanswered.
    pub fn sent_at(&self, cid: &Cid) -> (t: Option<u64>)
        requires
            self.wf(),
        ensures
            t == crate::keymap::lookup(self@.awaiting, *cid),
    {
        self.awaiting.get(cid)
    }

    /// How the sending that is under way would end: see
    /// [`MessageQueue::send_complete`].
    pub fn outcome(&self, ok: bool) -> (outcome: SendOutcome)
        ensures
            outcome == self@.outcome(ok),
    {
        let sending = match self.state {
            QueueState::Sending => true,
            _ => false,
        };
        if !sending {
            SendOutcome::Ignored
        } else if ok {
            SendOutcome::Done
        } else if self.failures == u32::MAX || self.failures + 1 >= self.config.max_failures {
            SendOutcome::Unreachable
        } else {
            SendOutcome::Retry
        }
    }

    /// How many wants and cancels wait for the next message.
    pub fn queued_len(&self) -> (n: usize)
        requires
            self@.pending.len() + self@.cancels.len() <= usize::MAX,
        ensures
            n == self@.pending.len() + self@.cancels.len(),
    {
        self.pending.len() + self.cancels.len()
    }

    /// Sets the time that the peer is given to answer a want.
    pub fn set_response_timeout(&mut self, timeout: u64)
        ensures
            final(self)@ == (QueueView {
                config: (QueueConfig { response_timeout: timeout, ..old(self)@.config }),
                ..old(self)@
            }),
    {
        self.config.response_timeout = timeout;
    }

    fn wake(&mut self, now: u64)
        ensures
            final(self)@ == old(self)@.wake(now),
    {
        let idle = match self.state {
            QueueState::Idle => true,
            _ => false,
        };
        if idle && (self.pending.len() > 0 || self.cancels.len() > 0) {
            self.state = QueueState::Queued;
            self.ready_at = saturating_add(now, self.config.debounce);
        }
    }

    fn is_closing(&self) -> (b: bool)
        ensures
            b == (self@.state is Closing),
    {
        match self.state {
            QueueState::Closing => true,
            _ => false,
        }
    }

    fn enqueue(
        &mut self,
        want_blocks: &Vec<Cid>,
        want_haves: &Vec<Cid>,
        priority: i32,
        send_dont_have: bool,
        now: u64,
    )
        requires
            old(self).wf(),
        ensures
            final(self)@ == old(self)@.add_wants(
                want_blocks@,
                want_haves@,
                priority,
                send_dont_have,
                now,
            ),
            final(self).wf(),
    {
        if self.is_closing() {
            return ;
        }
        self.pending.add_all(want_blocks, priority, WantType::Block, send_dont_have);
        self.pending.add_all(want_haves, priority, WantType::Have, send_dont_have);
        let mut all: Vec<Cid> = Vec::new();
        let mut i: usize = 0;
        while i < want_blocks.len()
            invariant
                i <= want_blocks@.len(),
                all@ == want_blocks@.subrange(0, i as int),
            decreases want_blocks@.len() - i,
        {
            all.push(want_blocks[i]);
            assert(want_blocks@.subrange(0, i + 1) == want_blocks@.subrange(0, i as int).push(
                want_blocks@[i as int],
            ));
            i += 1;
        }
        assert(want_blocks@.subrange(0, want_blocks@.len() as int) == want_blocks@);
        let mut j: usize = 0;
        while j < want_haves.len()
            invariant
                j <= want_haves@.len(),
                all@ == want_blocks@ + want_haves@.subrange(0, j as int),
            decreases want_haves@.len() - j,
        {
            all.push(want_haves[j]);
            assert(want_haves@.subrange(0, j + 1) == want_haves@.subrange(0, j as int).push(
                want_haves@[j as int],
            ));
            assert((want_blocks@ + want_haves@.subrange(0, j as int)).push(want_haves@[j as int])
                =~= want_blocks@ + want_haves@.subrange(0, j + 1));
            j += 1;
        }
        assert(want_haves@.subrange(0, want_haves@.len() as int) == want_haves@);
        self.cancels.remove_all(&all);
        self.wake(now);
    }

    /// Hands in wants for the peer: `want_blocks` to be sent, `want_haves` to
    /// be answered with a have or a dont-have. All get the priority
    /// `priority`; a want for a block that is queued already as a have is
    /// upgraded.
    pub fn add_wants(&mut self, want_blocks: &Vec<Cid>, want_haves: &Vec<Cid>, priority: i32, now: u64)
        requires
            old(self).wf(),
        ensures
            final(self)@ == old(self)@.add_wants(want_blocks@, want_haves@, priority, true, now),
            final(self).wf(),
    {
        self.enqueue(want_blocks, want_haves, priority, true, now)
    }

    /// Hands in want-haves that go to every peer. The peer is not asked to
    /// answer with a dont-have.
    pub fn add_broadcast_want_haves(&mut self, want_haves: &Vec<Cid>, priority: i32, now: u64)
        requires
            old(self).wf(),
        ensures
            final(self)@ == old(self)@.add_wants(
                Seq::<Cid>::empty(),
                want_haves@,
                priority,
                false,
                now,
            ),
            final(self).wf(),
    {
        let none: Vec<Cid> = Vec::new();
        self.enqueue(&none, want_haves, priority, false, now)
    }

    fn flight_has_want(&self, cid: &Cid) -> (b: bool)
        ensures
            b == in_flight_want(self@.in_flight, *cid),
    {
        let mut i: usize = 0;
        while i < self.in_flight.len()
            invariant
                i <= self.in_flight@.len(),
                forall|j: int|
                    0 <= j < i ==> !((#[trigger] self.in_flight@[j]).cid == *cid
                        && !self.in_flight@[j].cancel),
            decreases self.in_flight@.len() - i,
        {
            if self.in_flight[i].cid.same(cid) && !self.in_flight[i].cancel {
                return true;
            }
            i += 1;
        }
        false
    }

    /// Takes back the wants for `cids`. A want that still waits is dropped
    /// without a word to the peer; for a want that went out, or is going out,
    /// a cancel is queued.
    pub fn add_cancels(&mut self, cids: &Vec<Cid>, now: u64)
        requires
            old(self).wf(),
        ensures
            final(self)@ == old(self)@.add_cancels(cids@, now),
            final(self).wf(),
    {
        if self.is_closing() {
            return ;
        }
        let ghost v = self@;
        let ghost pred = |c: Cid| v.peer_told(c);
        let mut told: Vec<Cid> = Vec::new();
        let mut i: usize = 0;
        proof {
            lemma_filter_ends(cids@, pred);
        }
        while i < cids.len()
            invariant
                self.wf(),
                v == self@,
                i <= cids@.len(),
                pred == (|c: Cid| v.peer_told(c)),
                told@ == cids@.subrange(0, i as int).filter(pred),
            decreases cids@.len() - i,
        {
            proof {
                lemma_filter_next(cids@, i as int, pred);
            }
            let c = cids[i];
            if self.outstanding.contains(&c) || self.flight_has_want(&c) {
                told.push(c);
            }
            i += 1;
        }
        self.pending.remove_all(cids);
        self.cancels.extend(&told);
        self.outstanding.remove_all(cids);
        self.awaiting.remove_all(cids);
        self.wake(now);
    }
    /// Everything that waits to be sent, in the order of sending.
    fn queue(&self) -> (q: Vec<Entry>)
        ensures
            q@ == self@.queue(),
    {
        let cancels = self.cancels.to_vec();
        let wants = self.pending.entries();
        let mut q: Vec<Entry> = Vec::new();
        let mut i: usize = 0;
        while i < cancels.len()
            invariant
                i <= cancels@.len(),
                q@ == cancel_entries(cancels@.subrange(0, i as int)),
            decreases cancels@.len() - i,
        {
            q.push(
                Entry {
                    cid: cancels[i],
                    priority: 0,
                    want_type: WantType::Block,
                    cancel: true,
                    send_dont_have: false,
                },
            );
            assert(cancel_entries(cancels@.subrange(0, i + 1)) =~= cancel_entries(
                cancels@.subrange(0, i as int),
            ).push(cancel_entry(cancels@[i as int])));
            i += 1;
        }
        assert(cancels@.subrange(0, cancels@.len() as int) == cancels@);
        let mut j: usize = 0;
        while j < wants.len()
            invariant
                j <= wants@.len(),
                q@ == cancel_entries(cancels@) + wants@.subrange(0, j as int),
            decreases wants@.len() - j,
        {
            q.push(wants[j]);
            assert((cancel_entries(cancels@) + wants@.subrange(0, j as int)).push(wants@[j as int])
                =~= cancel_entries(cancels@) + wants@.subrange(0, j + 1));
            j += 1;
        }
        assert(wants@.subrange(0, wants@.len() as int) == wants@);
        q
    }

    /// How many entries of `q` go into the next message.
    fn chunk(q: &Vec<Entry>, max: u64) -> (k: usize)
        ensures
            k == chunk_len(q@, max),
            k <= q@.len(),
            q@.len() > 0 ==> k > 0,
    {
        let ghost s = q@;
        let mut budget: u64 = max;
        let mut i: usize = 0;
        proof {
            assert(s.subrange(0, s.len() as int) =~= s);
            lemma_fitting(s, max as int);
        }
        while i < q.len() && ENTRY_OVERHEAD + q[i].cid.hash.size as u64 <= budget
            invariant
                s == q@,
                i <= s.len(),
                fitting(s, max as int) == i + fitting(s.subrange(i as int, s.len() as int), budget as int),
            decreases s.len() - i,
        {
            proof {
                let t = s.subrange(i as int, s.len() as int);
                assert(t[0] == s[i as int]);
                assert(t.drop_first() =~= s.subrange(i + 1, s.len() as int));
            }
            budget = budget - (ENTRY_OVERHEAD + q[i].cid.hash.size as u64);
            i += 1;
        }
        proof {
            let t = s.subrange(i as int, s.len() as int);
            if i < s.len() {
                assert(t[0] == s[i as int]);
            }
        }
        if i == 0 && q.len() > 0 {
            1
        } else {
            i
        }
    }

    /// Asks for the next message at time `now`. A message is made when the
    /// queue has waited long enough: it holds the cancels first, then the
    /// wants by priority, as many as fit the largest size and one at least.
    /// What does not fit waits for the next message.
    pub fn poll(&mut self, now: u64) -> (message: Option<Vec<Entry>>)
        requires
            old(self).wf(),
        ensures
            final(self)@ == old(self)@.poll(now),
            match message {
                Some(m) => old(self)@.next_message(now) == Some(m@),
                None => old(self)@.next_message(now) is None,
            },
            final(self).wf(),
    {
        let queued = match self.state {
            QueueState::Queued => true,
            _ => false,
        };
        if !queued || now < self.ready_at {
            return None;
        }
        let mut q = self.queue();
        if q.len() == 0 {
            self.state = QueueState::Idle;
            return None;
        }
        let k = Self::chunk(&q, self.config.max_message_size);
        let kc = if k <= self.cancels.len() {
            k
        } else {
            self.cancels.len()
        };
        q.truncate(k);
        self.cancels.drop_front(kc);
        self.pending.drop_front(k - kc);
        self.state = QueueState::Sending;
        let mut flight: Vec<Entry> = Vec::new();
        let mut i: usize = 0;
        while i < q.len()
            invariant
                i <= q@.len(),
                flight@ == q@.subrange(0, i as int),
            decreases q@.len() - i,
        {
            flight.push(q[i]);
            assert(q@.subrange(0, i + 1) == q@.subrange(0, i as int).push(q@[i as int]));
            i += 1;
        }
        assert(q@.subrange(0, q@.len() as int) == q@);
        self.in_flight = flight;
        Some(q)
    }

    /// Puts the cancels of the message that did not go out back into the
    /// queue.
    fn requeue_cancels(cancels: &mut KeySet<Cid>, flight: &Vec<Entry>)
        requires
            old(cancels).wf(),
        ensures
            final(cancels)@ == requeued_cancels(old(cancels)@, flight@),
            final(cancels).wf(),
    {
        let mut i: usize = 0;
        while i < flight.len()
            invariant
                i <= flight@.len(),
                cancels.wf(),
                cancels@ == requeued_cancels(old(cancels)@, flight@.subrange(0, i as int)),
            decreases flight@.len() - i,
        {
            assert(flight@.subrange(0, i + 1).drop_last() =~= flight@.subrange(0, i as int));
            if flight[i].cancel {
                cancels.insert(flight[i].cid);
            }
            i += 1;
        }
        assert(flight@.subrange(0, flight@.len() as int) =~= flight@);
    }

    /// Notes the time of sending for the wants of the message that went out.
    fn stamp(awaiting: &mut KeyMap<Cid, u64>, sent: &Vec<Entry>, skip: &KeySet<Cid>, now: u64)
        requires
            old(awaiting).wf(),
            skip.wf(),
        ensures
            final(awaiting)@ == stamped(old(awaiting)@, sent@, skip@, now),
            final(awaiting).wf(),
    {
        let mut i: usize = 0;
        while i < sent.len()
            invariant
                i <= sent@.len(),
                awaiting.wf(),
                skip.wf(),
                awaiting@ == stamped(old(awaiting)@, sent@.subrange(0, i as int), skip@, now),
            decreases sent@.len() - i,
        {
            assert(sent@.subrange(0, i + 1).drop_last() =~= sent@.subrange(0, i as int));
            let e = sent[i];
            if !skip.contains(&e.cid) && !e.cancel {
                awaiting.set(e.cid, now);
            }
            i += 1;
        }
        assert(sent@.subrange(0, sent@.len() as int) =~= sent@);
    }

    /// Tells the queue at time `now` how the sending of the last message
    /// ended. After a success the wants of the message count as open and the
    /// peer's time to answer starts. After a failure what the message held is
    /// queued again and the queue waits, each time twice as long, before the
    /// next attempt; after too many failures in a row the queue closes.
    pub fn send_complete(&mut self, ok: bool, now: u64) -> (outcome: SendOutcome)
        requires
            old(self).wf(),
        ensures
            outcome == old(self)@.outcome(ok),
            final(self)@ == old(self)@.send_complete(ok, now),
            final(self).wf(),
    {
        let sending = match self.state {
            QueueState::Sending => true,
            _ => false,
        };
        if !sending {
            return SendOutcome::Ignored;
        }
        let mut flight: Vec<Entry> = Vec::new();
        std::mem::swap(&mut flight, &mut self.in_flight);
        if ok {
            self.failures = 0;
            self.outstanding.add_entries(&flight, &self.cancels);
            Self::stamp(&mut self.awaiting, &flight, &self.cancels, now);
            self.ready_at = now;
            if self.pending.len() > 0 || self.cancels.len() > 0 {
                self.state = QueueState::Queued;
            } else {
                self.state = QueueState::Idle;
            }
            SendOutcome::Done
        } else {
            let failed = self.failures;
            let count: u32 = if failed == u32::MAX {
                u32::MAX
            } else {
                failed + 1
            };
            if failed == u32::MAX || count >= self.config.max_failures {
                self.failures = count;
                self.state = QueueState::Closing;
                self.pending = Wantlist::new();
                self.cancels = KeySet::new();
                SendOutcome::Unreachable
            } else {
                self.failures = count;
                self.pending.add_entries(&flight, &self.cancels);
                Self::requeue_cancels(&mut self.cancels, &flight);
                self.ready_at = saturating_add(now, backoff_delay(failed));
                self.state = QueueState::Queued;
                SendOutcome::Retry
            }
        }
    }

    /// Takes note that the peer has sent the blocks `cids`: the wants for
    /// them are settled. A want that still waits is dropped, and no cancel
    /// is queued for a want that went out.
    pub fn resolve(&mut self, cids: &Vec<Cid>)
        requires
            old(self).wf(),
        ensures
            final(self)@ == old(self)@.resolve(cids@),
            final(self).wf(),
    {
        proof {
            crate::wantlist::lemma_removed_all_len(self@.pending, cids@);
        }
        self.pending.remove_all(cids);
        self.outstanding.remove_all(cids);
        self.awaiting.remove_all(cids);
    }

    /// Takes note that the peer answered for `cids`: their time to answer no
    /// longer runs.
    pub fn response_received(&mut self, cids: &Vec<Cid>)
        requires
            old(self).wf(),
        ensures
            final(self)@ == old(self)@.response_received(cids@),
            final(self).wf(),
    {
        self.awaiting.remove_all(cids);
    }

    /// Takes out the wants that went out `response_timeout` milliseconds or
    /// more before `now` and were not answered, and returns them, oldest
    /// first.
    pub fn check_timeouts(&mut self, now: u64) -> (late: Vec<Cid>)
        requires
            old(self).wf(),
        ensures
            late@ == old(self)@.expired(now),
            final(self)@ == old(self)@.expire(now),
            final(self).wf(),
    {
        let ghost a = self.awaiting@;
        let timeout = self.config.response_timeout;
        let ghost gone = |e: (Cid, u64)| is_expired(e.1, now, timeout);
        let ghost stay = |e: (Cid, u64)| !is_expired(e.1, now, timeout);
        let mut late: Vec<Cid> = Vec::new();
        let mut keep: Vec<(Cid, u64)> = Vec::new();
        let mut i: usize = 0;
        proof {
            lemma_filter_ends(a, gone);
            lemma_filter_ends(a, stay);
            lemma_filter_keys(a, stay);
            assert(keys_of(Seq::<(Cid, u64)>::empty()) =~= Seq::<Cid>::empty());
        }
        while i < self.awaiting.len()
            invariant
                a == self.awaiting@,
                i <= a.len(),
                gone == (|e: (Cid, u64)| is_expired(e.1, now, timeout)),
                stay == (|e: (Cid, u64)| !is_expired(e.1, now, timeout)),
                late@ == keys_of(a.subrange(0, i as int).filter(gone)),
                keep@ == a.subrange(0, i as int).filter(stay),
            decreases a.len() - i,
        {
            proof {
                lemma_filter_next(a, i as int, gone);
                lemma_filter_next(a, i as int, stay);
                let f = a.subrange(0, i as int).filter(gone);
                assert(keys_of(f.push(a[i as int])) =~= keys_of(f).push(a[i as int].0));
            }
            let e = self.awaiting.entry(i);
            if now >= e.1 && now - e.1 >= timeout {
                late.push(e.0);
            } else {
                keep.push(e);
            }
            i += 1;
        }
        self.awaiting.replace(keep);
        late
    }

    /// Looks at time `now` whether the open wants are due to be sent again,
    /// and queues them if they are. Returns whether they were due.
    pub fn rebroadcast(&mut self, now: u64) -> (fired: bool)
        requires
            old(self).wf(),
        ensures
            fired == old(self)@.rebroadcast_due(now),
            final(self)@ == old(self)@.rebroadcast(now),
            final(self).wf(),
    {
        if self.is_closing() || now < self.rebroadcast_at {
            return false;
        }
        let open = self.outstanding.entries();
        let none: KeySet<Cid> = KeySet::new();
        self.pending.add_entries(&open, &none);
        self.rebroadcast_at = saturating_add(now, self.config.rebroadcast_interval);
        self.wake(now);
        true
    }

    /// Stops the queue: nothing is sent any more and nothing is taken in.
    pub fn stop(&mut self)
        ensures
            final(self)@ == old(self)@.stop(),
            final(self).wf(),
    {
        self.state = QueueState::Closing;
        self.pending = Wantlist::new();
        self.cancels = KeySet::new();
        self.in_flight = Vec::new();
        self.outstanding = Wantlist::new();
        self.awaiting = KeyMap::new();
        assert(keys_of(Seq::<(Cid, u64)>::empty()) =~= Seq::<Cid>::empty());
    }
}

} // verus!
