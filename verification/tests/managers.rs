use iroh_bitswap::block_presence_manager::BlockPresenceManager;
use iroh_bitswap::ident::{Block, Cid, Multihash, PeerId};
use iroh_bitswap::message_queue::{
    backoff_delay, response_timeout, MessageQueue, QueueConfig, QueueState, SendOutcome,
};
use iroh_bitswap::peer_want_manager::PeerWantManager;
use iroh_bitswap::provider_query_manager::ProviderQueryManager;
use iroh_bitswap::session::{tick_delay_after, watchdog};
use iroh_bitswap::session_interest_manager::SessionInterestManager;
use iroh_bitswap::session_peer_manager::{ewma_update, SessionPeerManager};
use iroh_bitswap::wantlist::{Entry, WantType, Wantlist};

fn mcid(n: u8) -> Cid {
    Cid { version: 1, codec: 0x55, hash: Multihash::wrap(0x12, &vec![n; 32]).unwrap() }
}

fn mpeer(n: u8) -> PeerId {
    PeerId { hash: Multihash::wrap(0x00, &vec![n; 34]).unwrap() }
}

#[test]
fn wantlist_upgrades_but_never_downgrades() {
    let mut w = Wantlist::new();
    assert!(w.is_empty());
    assert!(w.add(mcid(1), 1, WantType::Have));
    assert!(!w.add(mcid(1), 9, WantType::Have));
    assert_eq!(w.get(&mcid(1)).unwrap().priority, 1);
    assert!(w.add(mcid(1), 3, WantType::Block));
    assert_eq!(w.get(&mcid(1)).unwrap().want_type, WantType::Block);
    assert_eq!(w.get(&mcid(1)).unwrap().priority, 3);
    assert!(!w.add(mcid(1), 7, WantType::Have));
    assert!(!w.add(mcid(1), 7, WantType::Block));
    assert_eq!(w.len(), 1);
    assert!(w.contains(&mcid(1)));
    assert_eq!(w.remove(&mcid(1)).unwrap().cid, mcid(1));
    assert!(w.remove(&mcid(1)).is_none());
    assert!(!w.contains(&mcid(1)));
}

#[test]
fn wantlist_is_stable_among_equal_priorities() {
    let mut w = Wantlist::new();
    for n in 0..5u8 {
        w.add(mcid(n), 1, WantType::Have);
    }
    w.add(mcid(9), 2, WantType::Have);
    w.add(mcid(8), 0, WantType::Have);
    let order: Vec<Cid> = w.entries().iter().map(|e| e.cid).collect();
    assert_eq!(order, vec![mcid(9), mcid(0), mcid(1), mcid(2), mcid(3), mcid(4), mcid(8)]);
}

#[test]
fn block_presence_last_write_wins() {
    let mut m = BlockPresenceManager::new();
    let (a, b) = (mpeer(1), mpeer(2));
    m.receive_from(&a, &vec![mcid(1), mcid(2)], &vec![mcid(3)]);
    assert!(m.peer_has_block(&a, &mcid(1)));
    assert!(!m.peer_does_not_have_block(&a, &mcid(1)));
    assert!(m.peer_does_not_have_block(&a, &mcid(3)));
    assert!(!m.peer_has_block(&a, &mcid(4)));
    assert!(!m.peer_does_not_have_block(&a, &mcid(4)));
    m.receive_from(&a, &vec![mcid(3)], &vec![mcid(1)]);
    assert!(m.peer_has_block(&a, &mcid(3)));
    assert!(m.peer_does_not_have_block(&a, &mcid(1)));
    m.receive_from(&a, &vec![mcid(5)], &vec![mcid(5)]);
    assert!(m.peer_does_not_have_block(&a, &mcid(5)));
    m.receive_from(&b, &vec![mcid(2)], &vec![]);
    assert_eq!(m.all_peers_for_cid(&mcid(2)), vec![a, b]);
    assert_eq!(m.all_peers_for_cid(&mcid(1)), Vec::<PeerId>::new());
    m.remove_peer(&a);
    assert_eq!(m.all_peers_for_cid(&mcid(2)), vec![b]);
    assert!(!m.peer_has_block(&a, &mcid(3)));
}

#[test]
fn block_presence_evicts_the_oldest() {
    let mut m = BlockPresenceManager::with_capacity(2);
    let a = mpeer(1);
    m.receive_from(&a, &vec![mcid(1), mcid(2)], &vec![]);
    m.receive_from(&a, &vec![mcid(1)], &vec![]);
    m.receive_from(&a, &vec![mcid(3)], &vec![]);
    assert!(!m.peer_has_block(&a, &mcid(1)));
    assert!(m.peer_has_block(&a, &mcid(2)));
    assert!(m.peer_has_block(&a, &mcid(3)));
    let mut none = BlockPresenceManager::with_capacity(0);
    none.receive_from(&a, &vec![mcid(1)], &vec![]);
    assert!(!none.peer_has_block(&a, &mcid(1)));
}

#[test]
fn session_interest_index() {
    let mut m = SessionInterestManager::new();
    m.record_session_interest(1, &vec![mcid(1), mcid(2)]);
    m.record_session_interest(2, &vec![mcid(2), mcid(3)]);
    m.record_session_interest(1, &vec![mcid(2)]);
    assert_eq!(m.interested_sessions(&mcid(2)), vec![1, 2]);
    assert_eq!(m.interested_sessions(&mcid(3)), vec![2]);
    assert_eq!(m.interested_sessions(&mcid(4)), Vec::<u64>::new());
    assert_eq!(m.session_interest(1), vec![mcid(1), mcid(2)]);
    assert_eq!(
        m.filter_session_interested(1, &vec![mcid(3), mcid(2), mcid(1), mcid(2)]),
        vec![mcid(2), mcid(1), mcid(2)]
    );
    let blocks: Vec<Block> =
        [4u8, 1, 3].iter().map(|n| Block::new(vec![*n], mcid(*n))).collect();
    assert_eq!(m.split_wanted_unwanted(&blocks), (vec![1, 2], vec![0]));
    assert_eq!(
        m.remove_session_interest_for_cids(1, &vec![mcid(2), mcid(1), mcid(9)]),
        vec![mcid(1)]
    );
    assert!(!m.is_interested(1, &mcid(1)));
    assert!(m.is_wanted(&mcid(2)));
    assert_eq!(m.remove_session_interest(2), vec![mcid(2), mcid(3)]);
    assert!(!m.is_wanted(&mcid(2)));
    assert_eq!(m.remove_session_interest(2), Vec::<Cid>::new());
}

#[test]
fn session_peers_are_ordered_by_round_trip() {
    let mut m = SessionPeerManager::new();
    assert!(!m.peers_discovered());
    assert!(m.add_peer(mpeer(1)));
    assert!(!m.add_peer(mpeer(1)));
    assert!(m.add_peer(mpeer(2)));
    assert!(m.add_peer(mpeer(3)));
    assert!(m.peers_discovered());
    assert!(!m.has_useful_peer());
    assert!(m.record_response(&mpeer(3), 10, 50));
    assert!(m.record_response(&mpeer(2), 11, 20));
    assert!(!m.record_response(&mpeer(9), 11, 20));
    assert!(m.has_useful_peer());
    assert_eq!(m.peers(), vec![mpeer(2), mpeer(3), mpeer(1)]);
    assert!(m.record_response(&mpeer(2), 12, 420));
    assert_eq!(m.get(&mpeer(2)).unwrap().rtt_ewma, 120);
    assert_eq!(m.get(&mpeer(2)).unwrap().first_responded_at, 11);
    assert_eq!(m.peers(), vec![mpeer(3), mpeer(2), mpeer(1)]);
    assert!(m.remove_peer(&mpeer(3)));
    assert!(!m.remove_peer(&mpeer(3)));
    assert!(!m.has_peer(&mpeer(3)));
    assert!(m.has_peer(&mpeer(1)));
    assert!(m.peers_discovered());
    assert_eq!(m.len(), 2);
}

#[test]
fn smoothing_and_timeouts() {
    assert_eq!(ewma_update(100, 100), 100);
    assert_eq!(ewma_update(100, 500), 200);
    assert_eq!(ewma_update(u64::MAX, u64::MAX), u64::MAX);
    assert_eq!(watchdog(0), 1000);
    assert_eq!(watchdog(10), 1030);
    assert_eq!(watchdog(u64::MAX), u64::MAX);
    assert_eq!(response_timeout(0), 2000);
    assert_eq!(response_timeout(250), 2500);
    assert_eq!(tick_delay_after(0), 1000);
    assert_eq!(tick_delay_after(1), 1500);
    assert_eq!(tick_delay_after(2), 2250);
    assert_eq!(tick_delay_after(3), 3375);
    assert_eq!(tick_delay_after(4), 5_062);
    assert_eq!(tick_delay_after(10), 57_654);
    assert_eq!(tick_delay_after(11), 60_000);
    assert_eq!(tick_delay_after(1000), 60_000);
    assert_eq!(backoff_delay(0), 100);
    assert_eq!(backoff_delay(1), 200);
    assert_eq!(backoff_delay(9), 51_200);
    assert_eq!(backoff_delay(10), 60_000);
    assert_eq!(backoff_delay(4000), 60_000);
}

#[test]
fn peer_wants_are_never_repeated() {
    let mut m = PeerWantManager::new();
    let (a, b) = (mpeer(1), mpeer(2));
    assert_eq!(m.add_peer(a), Vec::<Cid>::new());
    let out = m.broadcast_want_haves(&vec![mcid(1), mcid(2), mcid(1)]);
    assert_eq!(out.len(), 1);
    assert_eq!(out[0].peer, a);
    assert_eq!(out[0].cids, vec![mcid(1), mcid(2)]);
    assert!(m.broadcast_want_haves(&vec![mcid(1)])[0].cids.is_empty());
    assert_eq!(m.add_peer(b), vec![mcid(1), mcid(2)]);
    assert_eq!(m.add_peer(b), Vec::<Cid>::new());
    assert!(m.has_peer(&b));
    assert_eq!(m.peers(), vec![a, b]);

    let (blocks, haves) = m.send_wants(&a, &vec![mcid(1), mcid(3)], &vec![mcid(2), mcid(3), mcid(4)]);
    assert_eq!(blocks, vec![mcid(1), mcid(3)]);
    assert_eq!(haves, vec![mcid(4)]);
    let (blocks, haves) = m.send_wants(&a, &vec![mcid(1)], &vec![mcid(1), mcid(4)]);
    assert!(blocks.is_empty() && haves.is_empty());
    let (blocks, haves) = m.send_wants(&mpeer(9), &vec![mcid(1)], &vec![mcid(2)]);
    assert!(blocks.is_empty() && haves.is_empty());
    assert_eq!(m.current_want_blocks(), vec![mcid(1), mcid(3)]);
    assert_eq!(m.current_want_haves(), vec![mcid(2), mcid(4), mcid(1)]);
    assert_eq!(m.current_wants(), vec![mcid(1), mcid(2), mcid(3), mcid(4)]);

    let out = m.send_cancels(&vec![mcid(1), mcid(4), mcid(7), mcid(1)]);
    assert_eq!(out[0].cids, vec![mcid(1), mcid(4)]);
    assert_eq!(out[1].cids, vec![mcid(1)]);
    assert!(m.send_cancels(&vec![mcid(1)]).iter().all(|b| b.cids.is_empty()));
    assert_eq!(m.add_peer(mpeer(3)), vec![mcid(2)]);

    let out = m.remove_peer(&a);
    assert_eq!(out.len(), 2);
    assert_eq!(out[0].peer, b);
    assert_eq!(out[0].cids, vec![mcid(3)]);
    assert_eq!(out[1].cids, vec![mcid(3)]);
    assert!(m.remove_peer(&a).is_empty());
    assert!(!m.has_peer(&a));
}

#[test]
fn provider_queries_are_bounded_and_shared() {
    let mut m = ProviderQueryManager::with_limits(2, 10_000);
    assert!(m.find_providers(mcid(1), 1, 0));
    assert!(!m.find_providers(mcid(1), 2, 1));
    assert!(m.find_providers(mcid(2), 1, 2));
    assert!(!m.find_providers(mcid(3), 1, 3));
    assert!(!m.find_providers(mcid(4), 3, 4));
    assert_eq!(m.active_len(), 2);
    assert_eq!(m.queued_len(), 2);
    assert_eq!(m.provider_found(&mcid(1), &mpeer(1)), vec![1, 2]);
    assert_eq!(m.provider_found(&mcid(1), &mpeer(1)), vec![1, 2]);
    assert_eq!(m.provider_found(&mcid(9), &mpeer(1)), Vec::<u64>::new());
    assert_eq!(m.overdue(10_001), vec![mcid(1)]);
    assert_eq!(m.overdue(10_002), vec![mcid(1), mcid(2)]);
    assert_eq!(m.query_finished(&mcid(1), 10_002), Some(mcid(3)));
    assert_eq!(m.query_finished(&mcid(1), 10_003), None);
    assert_eq!(m.active_len(), 2);
    let change = m.unsubscribe(&mcid(2), 1, 10_004);
    assert!(change.stop && change.start);
    assert_eq!(change.start_cid, mcid(4));
    let change = m.unsubscribe(&mcid(3), 7, 10_005);
    assert!(!change.stop && !change.start);
    let change = m.unsubscribe(&mcid(3), 1, 10_005);
    assert!(change.stop && !change.start);
    assert_eq!(m.active_len(), 1);
    assert_eq!(m.queued_len(), 0);
    let default = ProviderQueryManager::new();
    assert_eq!(default.active_len(), 0);
}

#[test]
fn provider_queries_default_bound_is_sixteen() {
    let mut m = ProviderQueryManager::new();
    for n in 0..16u8 {
        assert!(m.find_providers(mcid(n), 1, 0));
    }
    assert!(!m.find_providers(mcid(16), 1, 0));
    assert_eq!(m.active_len(), 16);
    assert_eq!(m.queued_len(), 1);
    assert_eq!(m.overdue(9_999), Vec::<Cid>::new());
    assert_eq!(m.overdue(10_000).len(), 16);
}

fn entry(n: u8, priority: i32, want_type: WantType, cancel: bool, send_dont_have: bool) -> Entry {
    Entry { cid: mcid(n), priority, want_type, cancel, send_dont_have }
}

#[test]
fn queue_debounces_and_orders() {
    let mut q = MessageQueue::new(QueueConfig::new(), 0);
    assert_eq!(q.state(), QueueState::Idle);
    assert!(q.poll(1_000).is_none());
    q.add_wants(&vec![mcid(1)], &vec![mcid(2)], 5, 100);
    q.add_wants(&vec![mcid(3)], &vec![], 9, 110);
    assert_eq!(q.state(), QueueState::Queued);
    assert_eq!(q.ready_at(), 120);
    assert_eq!(q.queued_len(), 3);
    assert!(q.poll(119).is_none());
    let m = q.poll(120).unwrap();
    assert_eq!(
        m,
        vec![
            entry(3, 9, WantType::Block, false, true),
            entry(1, 5, WantType::Block, false, true),
            entry(2, 5, WantType::Have, false, true),
        ]
    );
    assert_eq!(q.state(), QueueState::Sending);
    assert!(q.poll(500).is_none());
    assert_eq!(q.send_complete(true, 130), SendOutcome::Done);
    assert_eq!(q.state(), QueueState::Idle);
    assert_eq!(q.send_complete(true, 131), SendOutcome::Ignored);
    assert_eq!(q.sent_at(&mcid(1)), Some(130));
}

#[test]
fn queue_cancel_takes_precedence() {
    let mut q = MessageQueue::new(QueueConfig::new(), 0);
    q.add_wants(&vec![mcid(1)], &vec![mcid(2)], 5, 0);
    q.add_cancels(&vec![mcid(1)], 1);
    assert_eq!(q.poll(20).unwrap(), vec![entry(2, 5, WantType::Have, false, true)]);
    q.send_complete(true, 21);
    q.add_cancels(&vec![mcid(2), mcid(7)], 30);
    q.add_wants(&vec![mcid(3)], &vec![], 9, 31);
    assert_eq!(
        q.poll(50).unwrap(),
        vec![entry(2, 0, WantType::Block, true, false), entry(3, 9, WantType::Block, false, true)]
    );
    assert_eq!(q.sent_at(&mcid(2)), None);
    q.send_complete(true, 51);
    q.add_cancels(&vec![mcid(3)], 60);
    q.add_wants(&vec![mcid(3)], &vec![], 9, 61);
    let m = q.poll(80).unwrap();
    assert_eq!(m, vec![entry(3, 9, WantType::Block, false, true)]);
}

#[test]
fn queue_chunks_by_size() {
    let config = QueueConfig { max_message_size: 100, ..QueueConfig::new() };
    let mut q = MessageQueue::new(config, 0);
    let cids: Vec<Cid> = (0..5u8).map(mcid).collect();
    q.add_broadcast_want_haves(&cids, 1, 0);
    // Each entry takes 16 + 32 bytes: two fit into 100.
    assert_eq!(q.poll(20).unwrap().len(), 2);
    q.send_complete(true, 21);
    let second = q.poll(21).unwrap();
    assert_eq!(second, vec![
        entry(2, 1, WantType::Have, false, false),
        entry(3, 1, WantType::Have, false, false),
    ]);
    q.send_complete(true, 22);
    assert_eq!(q.poll(22).unwrap().len(), 1);
    q.send_complete(true, 23);
    assert!(q.poll(24).is_none());
    assert_eq!(q.state(), QueueState::Idle);

    let tiny = QueueConfig { max_message_size: 1, ..QueueConfig::new() };
    let mut q = MessageQueue::new(tiny, 0);
    q.add_wants(&cids, &vec![], 1, 0);
    assert_eq!(q.poll(20).unwrap().len(), 1);
}

#[test]
fn queue_backs_off_and_gives_up() {
    let mut q = MessageQueue::new(QueueConfig::new(), 0);
    q.add_wants(&vec![mcid(1)], &vec![], 1, 0);
    q.add_cancels(&vec![mcid(9)], 0);
    let first = q.poll(20).unwrap();
    let mut now = 20;
    for (n, delay) in [100u64, 200, 400, 800].iter().enumerate() {
        assert_eq!(q.outcome(false), SendOutcome::Retry);
        assert_eq!(q.send_complete(false, now), SendOutcome::Retry);
        assert_eq!(q.state(), QueueState::Queued);
        assert_eq!(q.ready_at(), now + delay, "after failure {}", n + 1);
        assert!(q.poll(now + delay - 1).is_none());
        assert_eq!(q.poll(now + delay).unwrap(), first);
        now += delay;
    }
    assert_eq!(q.send_complete(false, now), SendOutcome::Unreachable);
    assert_eq!(q.state(), QueueState::Closing);
    q.add_wants(&vec![mcid(2)], &vec![], 1, now);
    assert!(q.poll(u64::MAX).is_none());
}

#[test]
fn queue_success_resets_failures() {
    let mut q = MessageQueue::new(QueueConfig::new(), 0);
    q.add_wants(&vec![mcid(1)], &vec![], 1, 0);
    q.poll(20).unwrap();
    assert_eq!(q.send_complete(false, 20), SendOutcome::Retry);
    q.poll(120).unwrap();
    assert_eq!(q.send_complete(true, 121), SendOutcome::Done);
    q.add_wants(&vec![mcid(2)], &vec![], 1, 200);
    q.poll(220).unwrap();
    assert_eq!(q.send_complete(false, 221), SendOutcome::Retry);
    assert_eq!(q.ready_at(), 321);
}

#[test]
fn queue_times_out_and_rebroadcasts() {
    let mut q = MessageQueue::new(QueueConfig::new(), 0);
    q.add_wants(&vec![mcid(1), mcid(2)], &vec![mcid(3)], 1, 0);
    q.poll(20).unwrap();
    q.send_complete(true, 25);
    q.response_received(&vec![mcid(2)]);
    assert_eq!(q.check_timeouts(2_024), Vec::<Cid>::new());
    assert_eq!(q.check_timeouts(2_025), vec![mcid(1), mcid(3)]);
    assert_eq!(q.check_timeouts(9_999), Vec::<Cid>::new());
    q.set_response_timeout(5);
    assert!(!q.rebroadcast(29_999));
    assert!(q.rebroadcast(30_000));
    assert_eq!(q.state(), QueueState::Queued);
    assert_eq!(q.poll(30_020).unwrap().len(), 3);
    q.send_complete(true, 30_021);
    assert_eq!(q.check_timeouts(30_026).len(), 3);
    assert!(!q.rebroadcast(59_999));
    assert!(q.rebroadcast(60_000));
    q.stop();
    assert_eq!(q.state(), QueueState::Closing);
    assert!(!q.rebroadcast(u64::MAX));
    assert!(q.poll(u64::MAX).is_none());
}

#[test]
fn queue_resolve_sends_no_cancel() {
    let mut q = MessageQueue::new(QueueConfig::new(), 0);
    q.add_wants(&vec![mcid(1)], &vec![mcid(2)], 1, 0);
    q.poll(20).unwrap();
    q.send_complete(true, 21);
    q.resolve(&vec![mcid(1)]);
    q.add_cancels(&vec![mcid(1), mcid(2)], 30);
    assert_eq!(q.poll(50).unwrap(), vec![entry(2, 0, WantType::Block, true, false)]);
}

#[test]
fn provider_queries_expire_in_order() {
    let mut m = ProviderQueryManager::with_limits(2, 100);
    m.find_providers(mcid(1), 1, 0);
    m.find_providers(mcid(2), 1, 10);
    m.find_providers(mcid(3), 1, 20);
    assert_eq!(m.expire(99), vec![]);
    assert_eq!(m.expire(100), vec![(mcid(1), Some(mcid(3)))]);
    assert_eq!(m.expire(150), vec![(mcid(2), None)]);
    assert_eq!(m.active_len(), 1);
    assert_eq!(m.expire(200), vec![(mcid(3), None)]);
    assert_eq!(m.active_len(), 0);
    assert_eq!(m.provider_found(&mcid(3), &mpeer(1)), Vec::<u64>::new());
}
