use iroh_bitswap::block_presence_manager::BlockPresenceManager;
use iroh_bitswap::client::{Client, Config};
use iroh_bitswap::ident::{Block, Cid, Multihash, PeerId};
use iroh_bitswap::message::{BitswapMessage, BlockPresence, BlockPresenceType};
use iroh_bitswap::message_queue::SendOutcome;
use iroh_bitswap::session::{Command, Phase, Session, SessionConfig};
use iroh_bitswap::shared::Effect;
use iroh_bitswap::wantlist::{Entry, WantType};

fn pcid(n: u8) -> Cid {
    Cid { version: 1, codec: 0x55, hash: Multihash::wrap(0x12, &vec![n; 32]).unwrap() }
}

fn ppeer(n: u8) -> PeerId {
    PeerId { hash: Multihash::wrap(0x00, &vec![n; 34]).unwrap() }
}

fn says(c: Cid, typ: BlockPresenceType) -> BitswapMessage {
    let mut m = BitswapMessage::new(false);
    m.block_presences.push(BlockPresence { cid: c, typ });
    m
}

fn carries(c: Cid, data: &[u8]) -> BitswapMessage {
    let mut m = BitswapMessage::new(false);
    m.blocks.push(Block::new(data.to_vec(), c));
    m
}

fn send_all(client: &mut Client, p: &PeerId, now: u64) -> Vec<Entry> {
    let mut out = Vec::new();
    while let Some(mut m) = client.poll(p, now) {
        out.append(&mut m);
        assert_eq!(client.send_complete(p, true, now), SendOutcome::Done);
    }
    out
}

#[test]
fn delivered_blocks_are_the_blocks_asked_for() {
    let a = ppeer(1);
    let mut client = Client::new(Config::default());
    client.peer_connected(&a, 0);
    client.get_blocks_with_session_id(1, &vec![pcid(1), pcid(2)], 0);
    client.get_blocks_with_session_id(2, &vec![pcid(2)], 0);
    let mut m = BitswapMessage::new(false);
    for n in [3u8, 2, 1] {
        m.blocks.push(Block::new(vec![n; 4], pcid(n)));
    }
    let r = client.receive_message(&a, &m, 10);
    assert_eq!(
        r.effects,
        vec![
            Effect::Deliver { session: 1, cid: pcid(1) },
            Effect::Deliver { session: 1, cid: pcid(2) },
            Effect::Deliver { session: 2, cid: pcid(2) },
        ]
    );
    assert_eq!(r.wanted, vec![1, 2]);
    for e in &r.effects {
        if let Effect::Deliver { cid, .. } = e {
            assert!(m.blocks.iter().any(|b| b.cid == *cid));
        }
    }
    // A second copy of the block finds nobody waiting.
    let again = client.receive_message(&a, &m, 20);
    assert!(again.effects.is_empty());
    assert!(again.wanted.is_empty());
}

#[test]
fn wants_to_a_peer_follow_have_block_cancel() {
    let (a, b, c1) = (ppeer(1), ppeer(2), pcid(1));
    let mut client = Client::new(Config::default());
    client.peer_connected(&a, 0);
    client.peer_connected(&b, 0);
    let mut to_a = Vec::new();
    let mut to_b = Vec::new();
    client.get_block_with_session_id(1, &c1, 0);
    to_a.extend(send_all(&mut client, &a, 20));
    to_b.extend(send_all(&mut client, &b, 20));
    client.receive_message(&a, &says(c1, BlockPresenceType::Have), 30);
    client.receive_message(&b, &says(c1, BlockPresenceType::Have), 31);
    to_a.extend(send_all(&mut client, &a, 60));
    to_b.extend(send_all(&mut client, &b, 60));
    client.get_block_with_session_id(1, &c1, 61);
    client.tick(70);
    to_a.extend(send_all(&mut client, &a, 100));
    to_b.extend(send_all(&mut client, &b, 100));
    client.stop_session(1, 110);
    client.stop_session(1, 111);
    to_a.extend(send_all(&mut client, &a, 200));
    to_b.extend(send_all(&mut client, &b, 200));
    client.tick(100_000);
    to_a.extend(send_all(&mut client, &a, 200_000));
    to_b.extend(send_all(&mut client, &b, 200_000));

    let kinds = |entries: &[Entry]| -> Vec<&'static str> {
        entries
            .iter()
            .map(|e| match (e.cancel, e.want_type) {
                (true, _) => "cancel",
                (false, WantType::Have) => "want-have",
                (false, WantType::Block) => "want-block",
            })
            .collect()
    };
    assert_eq!(kinds(&to_a), vec!["want-have", "want-block", "cancel"]);
    assert_eq!(kinds(&to_b), vec!["want-have", "cancel"]);
}

#[test]
fn nothing_is_sent_to_a_disconnected_peer() {
    let (a, b, c) = (ppeer(1), ppeer(2), ppeer(3));
    let mut client = Client::new(Config::default());
    client.peer_connected(&a, 0);
    client.get_blocks_with_session_id(1, &vec![pcid(1), pcid(2)], 0);
    assert_eq!(send_all(&mut client, &a, 20).len(), 2);
    client.peer_connected(&b, 30);
    client.peer_connected(&c, 30);
    assert_eq!(send_all(&mut client, &b, 50).len(), 2);
    client.receive_message(&a, &says(pcid(1), BlockPresenceType::Have), 60);
    assert_eq!(send_all(&mut client, &a, 80).len(), 1);

    client.peer_disconnected(&a, 90);
    assert_eq!(client.peers(), vec![b, c]);
    client.get_blocks_with_session_id(1, &vec![pcid(3)], 95);
    client.tick(5_000);
    assert!(client.poll(&a, 1_000_000).is_none());
    assert_eq!(client.send_complete(&a, true, 1_000_000), SendOutcome::Ignored);
    // The peer that had not been asked yet is asked about everything.
    let sent: Vec<Cid> = send_all(&mut client, &c, 5_100).iter().map(|e| e.cid).collect();
    for n in [1u8, 2, 3] {
        assert!(sent.contains(&pcid(n)));
    }
    assert!(client.get_wantlist().contains(&pcid(1)));
}

#[test]
fn a_stopped_session_gets_no_blocks() {
    let a = ppeer(1);
    let mut client = Client::new(Config::default());
    client.peer_connected(&a, 0);
    let id = client.new_session();
    assert_eq!(id, 0);
    assert_eq!(client.try_new_session(), Some(1));
    client.get_block_with_session_id(id, &pcid(1), 0);
    client.get_block_with_session_id(1, &pcid(1), 0);
    send_all(&mut client, &a, 20);
    client.stop_session(id, 30);
    let r = client.receive_message(&a, &carries(pcid(1), b"late"), 40);
    assert_eq!(r.effects, vec![Effect::Deliver { session: 1, cid: pcid(1) }]);
    let r = client.notify_new_blocks(&vec![Block::new(b"late".to_vec(), pcid(1))], 50);
    assert!(r.is_empty());
    assert!(client.tick(60_000).iter().all(|e| !matches!(e, Effect::Deliver { .. })));
    let effects = client.stop(70_000);
    assert!(effects.iter().all(|e| !matches!(e, Effect::Deliver { .. })));
    assert!(client.poll(&a, u64::MAX).is_none());
}

#[test]
fn unanswered_wants_count_as_dont_haves() {
    let (a, b, c1) = (ppeer(1), ppeer(2), pcid(1));
    let mut client = Client::new(Config::default());
    client.peer_connected(&a, 0);
    client.peer_connected(&b, 0);
    client.get_block_with_session_id(1, &c1, 0);
    send_all(&mut client, &a, 20);
    send_all(&mut client, &b, 20);
    client.receive_message(&a, &says(c1, BlockPresenceType::Have), 30);
    assert!(client.check_peer(&b, 2_019).is_empty());
    assert!(client.check_peer(&b, 2_020).is_empty());
    let sent = send_all(&mut client, &b, 2_100);
    assert!(sent.is_empty());
    // The peer that answered gets its time measured: 10 ms round trip.
    send_all(&mut client, &a, 60);
    client.check_peer(&a, 60 + 2_019);
    assert!(send_all(&mut client, &b, 3_000).is_empty());
    client.check_peer(&a, 60 + 2_020);
    let sent = send_all(&mut client, &b, 3_000);
    assert_eq!(sent.iter().filter(|e| e.want_type == WantType::Block).count(), 1);
}

#[test]
fn an_unreachable_peer_is_dropped() {
    let (a, b) = (ppeer(1), ppeer(2));
    let mut client = Client::new(Config::default());
    client.peer_connected(&a, 0);
    client.peer_connected(&b, 0);
    client.get_block_with_session_id(1, &pcid(1), 0);
    let mut now = 20;
    for n in 0..5 {
        assert!(client.poll(&a, now).is_some());
        let outcome = client.send_complete(&a, false, now);
        if n < 4 {
            assert_eq!(outcome, SendOutcome::Retry);
        } else {
            assert_eq!(outcome, SendOutcome::Unreachable);
        }
        now += 60_000;
    }
    assert_eq!(client.peers(), vec![b]);
    assert!(client.poll(&a, u64::MAX).is_none());
}

fn sconfig() -> SessionConfig {
    SessionConfig::new()
}

#[test]
fn session_starts_in_discovery_and_arms_the_search() {
    let mut s = Session::new(4, sconfig());
    assert_eq!(s.id(), 4);
    assert_eq!(s.phase(), Phase::Discovery);
    assert!(!s.is_stopped());
    let presences = BlockPresenceManager::new();
    assert!(s.tick(&presences, 10_000).is_empty());
    let cmds = s.want_blocks(&vec![pcid(1), pcid(2), pcid(1)], 100);
    assert_eq!(
        cmds,
        vec![
            Command::BroadcastWantHave { cid: pcid(1) },
            Command::BroadcastWantHave { cid: pcid(2) },
        ]
    );
    assert!(s.want_blocks(&vec![pcid(2)], 150).is_empty());
    assert_eq!(s.wanted(), vec![pcid(1), pcid(2)]);
    assert!(s.wants(&pcid(1)));
    assert!(s.tick(&presences, 1_099).is_empty());
    assert_eq!(
        s.tick(&presences, 1_100),
        vec![
            Command::FindProviders { cid: pcid(1) },
            Command::FindProviders { cid: pcid(2) },
            Command::BroadcastWantHave { cid: pcid(1) },
            Command::BroadcastWantHave { cid: pcid(2) },
        ]
    );
    // The next idle tick comes 1.5 s later, and the search is not repeated.
    assert!(s.tick(&presences, 2_599).is_empty());
    assert_eq!(s.tick(&presences, 2_600).len(), 2);
}

#[test]
fn session_stalls_after_four_idle_ticks() {
    let mut s = Session::new(1, sconfig());
    let mut presences = BlockPresenceManager::new();
    let a = ppeer(1);
    s.want_blocks(&vec![pcid(1)], 0);
    let cmds = s.receive_from(Some(a), &vec![], &vec![pcid(1)], &vec![], Some(10), 10);
    assert_eq!(cmds, vec![Command::WantBlock { peer: a, cid: pcid(1) }]);
    assert_eq!(s.phase(), Phase::Steady);
    presences.receive_from(&a, &vec![pcid(1)], &vec![]);
    let mut now = 1_000;
    for delay in [1_500u64, 2_250, 3_375] {
        assert!(s.tick(&presences, now).is_empty());
        assert_eq!(s.phase(), Phase::Steady);
        assert!(s.tick(&presences, now + delay - 1).is_empty());
        now += delay;
    }
    let cmds = s.tick(&presences, now);
    assert_eq!(
        cmds,
        vec![
            Command::BroadcastWantHave { cid: pcid(1) },
            Command::FindProviders { cid: pcid(1) },
        ]
    );
    assert_eq!(s.phase(), Phase::Discovery);
    // A block is progress: the ticks start over.
    let cmds = s.receive_from(Some(a), &vec![pcid(1)], &vec![], &vec![], None, now + 1);
    assert_eq!(
        cmds,
        vec![Command::Deliver { cid: pcid(1) }, Command::Release { cid: pcid(1) }]
    );
    assert!(s.wanted().is_empty());
}

#[test]
fn session_prefers_holders_then_falls_back_to_two() {
    let mut s = Session::new(1, sconfig());
    let mut presences = BlockPresenceManager::new();
    let (a, b, c, d) = (ppeer(1), ppeer(2), ppeer(3), ppeer(4));
    s.want_blocks(&vec![pcid(1)], 0);
    // Four candidates with round trips 40, 30, 20, 10; the answers are
    // about another block, so nothing is asked yet.
    s.want_blocks(&vec![pcid(9)], 0);
    for (p, rtt) in [(a, 40u64), (b, 30), (c, 20), (d, 10)] {
        let cmds = s.receive_from(Some(p), &vec![], &vec![], &vec![pcid(9)], Some(rtt), 5);
        assert!(cmds.iter().all(|c| matches!(c, Command::BroadcastWantBlock { .. })));
    }
    presences.receive_from(&d, &vec![], &vec![pcid(1)]);
    let cmds = s.tick(&presences, 1_000);
    let about_1: Vec<Command> = cmds
        .into_iter()
        .filter(|c| match c {
            Command::WantBlock { cid, .. } | Command::WantHave { cid, .. } => *cid == pcid(1),
            _ => false,
        })
        .collect();
    assert_eq!(
        about_1,
        vec![
            Command::WantBlock { peer: c, cid: pcid(1) },
            Command::WantBlock { peer: b, cid: pcid(1) },
            Command::WantHave { peer: d, cid: pcid(1) },
            Command::WantHave { peer: a, cid: pcid(1) },
        ]
    );

    let mut t = Session::new(2, sconfig());
    t.want_blocks(&vec![pcid(1), pcid(9)], 0);
    for (p, rtt) in [(a, 40u64), (b, 30)] {
        t.receive_from(Some(p), &vec![], &vec![], &vec![pcid(9)], Some(rtt), 5);
    }
    presences.receive_from(&a, &vec![pcid(1)], &vec![]);
    let cmds = t.tick(&presences, 1_000);
    assert!(cmds.contains(&Command::WantBlock { peer: a, cid: pcid(1) }));
    assert!(cmds.contains(&Command::WantHave { peer: b, cid: pcid(1) }));
    assert!(!cmds.contains(&Command::WantBlock { peer: b, cid: pcid(1) }));
}

#[test]
fn session_discovers_and_stops() {
    let mut s = Session::new(1, sconfig());
    let d = ppeer(4);
    s.want_blocks(&vec![pcid(1), pcid(2)], 0);
    assert_eq!(
        s.add_discovered_peer(d),
        vec![
            Command::Connect { peer: d },
            Command::WantHave { peer: d, cid: pcid(1) },
            Command::WantHave { peer: d, cid: pcid(2) },
        ]
    );
    assert!(s.is_relevant(&vec![pcid(2)], &vec![], &vec![]));
    assert!(s.is_relevant(&vec![], &vec![], &vec![pcid(1)]));
    assert!(!s.is_relevant(&vec![pcid(3)], &vec![pcid(4)], &vec![]));
    s.peer_disconnected(&d);
    assert_eq!(
        s.stop(),
        vec![Command::Release { cid: pcid(1) }, Command::Release { cid: pcid(2) }]
    );
    assert!(s.is_stopped());
    assert!(s.stop().is_empty());
    assert!(s.want_blocks(&vec![pcid(3)], 10).is_empty());
    assert!(s.add_discovered_peer(d).is_empty());
    assert!(s.receive_from(None, &vec![pcid(1)], &vec![], &vec![], None, 20).is_empty());
    assert!(s.check_watchdogs(u64::MAX).is_empty());
    assert!(s.tick(&BlockPresenceManager::new(), u64::MAX).is_empty());
}

#[test]
fn a_getter_that_is_given_up_takes_its_wants_back() {
    let a = ppeer(1);
    let mut client = Client::new(Config::default());
    client.peer_connected(&a, 0);
    client.get_blocks_with_session_id(1, &vec![pcid(1), pcid(2)], 0);
    client.get_blocks_with_session_id(2, &vec![pcid(2)], 0);
    send_all(&mut client, &a, 20);
    assert!(client.cancel_wants(1, &vec![pcid(1), pcid(2), pcid(3)], 30).is_empty());
    assert!(client.cancel_wants(9, &vec![pcid(2)], 31).is_empty());
    let sent = send_all(&mut client, &a, 60);
    assert_eq!(sent.len(), 1);
    assert!(sent[0].cancel && sent[0].cid == pcid(1));
    let r = client.receive_message(&a, &carries(pcid(2), b"x"), 70);
    assert_eq!(r.effects, vec![Effect::Deliver { session: 2, cid: pcid(2) }]);
    let mut s = Session::new(1, sconfig());
    s.want_blocks(&vec![pcid(1), pcid(2)], 0);
    assert_eq!(
        s.cancel_wants(&vec![pcid(2), pcid(5)]),
        vec![Command::Release { cid: pcid(2) }]
    );
    assert_eq!(s.wanted(), vec![pcid(1)]);
}

#[test]
fn a_new_client_wants_nothing() {
    let client = Client::new(Config::default());
    let s = client.stat();
    assert!(s.wantlist.is_empty());
    assert_eq!(
        (s.blocks_received, s.data_received, s.dup_blks_received, s.dup_data_received, s.messages_received),
        (0, 0, 0, 0, 0)
    );
    assert!(client.get_wantlist().is_empty());
    assert!(client.get_want_blocks().is_empty());
    assert!(client.get_want_haves().is_empty());
    assert!(client.peers().is_empty());
    assert!(client.has_free_session_id());
}

#[test]
fn a_single_request_leaves_no_session() {
    let a = ppeer(1);
    let mut client = Client::new(Config::default());
    client.peer_connected(&a, 0);
    client.get_block_with_session_id(5, &pcid(1), 0);
    let (session, _) = client.get_block(&pcid(1), 0);
    assert_eq!(session, 6);
    send_all(&mut client, &a, 20);
    let r = client.receive_message(&a, &carries(pcid(1), b"x"), 30);
    assert!(r.effects.contains(&Effect::Deliver { session, cid: pcid(1) }));
    assert!(client.finish_get_block(session, 40).is_empty());
    assert!(client.finish_get_block(session, 41).is_empty());
    // The identifier is not given again, and the other session is there.
    assert_eq!(client.try_new_session(), Some(7));
    client.get_block_with_session_id(5, &pcid(2), 50);
    assert!(client.get_wantlist().contains(&pcid(2)));

    // A getter that gives up takes its want back.
    let (second, _) = client.get_block(&pcid(3), 60);
    send_all(&mut client, &a, 100);
    client.finish_get_block(second, 110);
    let sent = send_all(&mut client, &a, 200);
    assert!(sent.iter().any(|e| e.cancel && e.cid == pcid(3)));
    assert!(!client.get_wantlist().contains(&pcid(3)));
}

#[test]
fn lookups_end_when_their_time_is_over() {
    let mut client = Client::new(Config::default());
    let keys: Vec<Cid> = (0..18u8).map(pcid).collect();
    client.get_blocks_with_session_id(1, &keys, 0);
    let started: Vec<Effect> = client.tick(1_000);
    let starts = started
        .iter()
        .filter(|e| matches!(e, Effect::StartProviderQuery { .. }))
        .count();
    assert_eq!(starts, 16);
    assert!(client.expire_lookups(10_999).is_empty());
    let ended = client.expire_lookups(11_000);
    assert_eq!(
        &ended[..4],
        &[
            Effect::StopProviderQuery { cid: pcid(0) },
            Effect::StartProviderQuery { cid: pcid(16) },
            Effect::StopProviderQuery { cid: pcid(1) },
            Effect::StartProviderQuery { cid: pcid(17) },
        ]
    );
    assert_eq!(ended.len(), 18);
    assert!(client.expire_lookups(11_001).is_empty());
    assert_eq!(client.expire_lookups(21_000).len(), 2);
}

#[test]
fn a_late_have_asks_nothing() {
    let a = ppeer(1);
    let mut client = Client::new(Config::default());
    client.peer_connected(&a, 0);
    client.get_block_with_session_id(1, &pcid(1), 0);
    send_all(&mut client, &a, 20);
    client.cancel_wants(1, &vec![pcid(1)], 30);
    let sent = send_all(&mut client, &a, 60);
    assert!(sent.len() == 1 && sent[0].cancel);
    client.receive_message(&a, &says(pcid(1), BlockPresenceType::Have), 70);
    client.tick(5_000);
    assert!(send_all(&mut client, &a, 10_000).is_empty());
    assert!(client.get_wantlist().is_empty());
}
