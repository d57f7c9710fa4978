use iroh_bitswap::client::{Client, Config};
use iroh_bitswap::ident::{Block, Cid, Multihash, PeerId};
use iroh_bitswap::message::{BitswapMessage, BlockPresence, BlockPresenceType};
use iroh_bitswap::message_queue::SendOutcome;
use iroh_bitswap::shared::Effect;
use iroh_bitswap::wantlist::{Entry, WantType};

fn cid(n: u8) -> Cid {
    Cid { version: 1, codec: 0x55, hash: Multihash::wrap(0x12, &vec![n; 32]).unwrap() }
}

fn peer(n: u8) -> PeerId {
    PeerId { hash: Multihash::wrap(0x00, &vec![n; 34]).unwrap() }
}

fn have(c: Cid) -> BitswapMessage {
    let mut m = BitswapMessage::new(false);
    m.block_presences.push(BlockPresence { cid: c, typ: BlockPresenceType::Have });
    m
}

fn dont_have(c: Cid) -> BitswapMessage {
    let mut m = BitswapMessage::new(false);
    m.block_presences.push(BlockPresence { cid: c, typ: BlockPresenceType::DontHave });
    m
}

fn block(c: Cid, data: &[u8]) -> BitswapMessage {
    let mut m = BitswapMessage::new(false);
    m.blocks.push(Block::new(data.to_vec(), c));
    m
}

/// Sends everything that is due to `p` at `now` and reports success.
fn flush(client: &mut Client, p: &PeerId, now: u64) -> Vec<Entry> {
    let mut out = Vec::new();
    while let Some(mut m) = client.poll(p, now) {
        out.append(&mut m);
        assert_eq!(client.send_complete(p, true, now), SendOutcome::Done);
    }
    out
}

fn wants(entries: &[Entry], c: Cid, t: WantType) -> usize {
    entries.iter().filter(|e| e.cid == c && e.want_type == t && !e.cancel).count()
}

fn cancels(entries: &[Entry], c: Cid) -> usize {
    entries.iter().filter(|e| e.cid == c && e.cancel).count()
}

#[test]
fn single_peer_single_block() {
    let (a, c1) = (peer(1), cid(1));
    let mut client = Client::new(Config::default());
    client.peer_connected(&a, 0);
    let (session, effects) = client.get_block(&c1, 0);
    assert!(effects.is_empty());
    assert!(client.poll(&a, 19).is_none());
    let first = flush(&mut client, &a, 20);
    assert_eq!(first.len(), 1);
    assert_eq!(wants(&first, c1, WantType::Have), 1);
    assert!(client.get_wantlist().contains(&c1));
    assert!(client.get_want_haves().contains(&c1));

    let r = client.receive_message(&a, &have(c1), 30);
    assert!(r.effects.is_empty());
    let second = flush(&mut client, &a, 50);
    assert_eq!(second.len(), 1);
    assert_eq!(wants(&second, c1, WantType::Block), 1);
    assert!(client.get_want_blocks().contains(&c1));

    let r = client.receive_message(&a, &block(c1, b"hello"), 60);
    assert_eq!(r.effects, vec![Effect::Deliver { session, cid: c1 }]);
    assert_eq!(r.wanted, vec![0]);
    assert!(client.get_wantlist().is_empty());
    assert!(flush(&mut client, &a, 1000).is_empty());
    assert!(client.stop_session(session, 70).is_empty());
}

#[test]
fn fan_out_discovery() {
    let (a, b, c, d, c1) = (peer(1), peer(2), peer(3), peer(4), cid(1));
    let mut client = Client::new(Config::default());
    for p in [&a, &b, &c] {
        client.peer_connected(p, 0);
    }
    let (session, _) = client.get_block(&c1, 0);
    for p in [&a, &b, &c] {
        let sent = flush(&mut client, p, 20);
        assert_eq!(wants(&sent, c1, WantType::Have), 1);
    }
    assert!(client.tick(999).is_empty());
    let effects = client.tick(1000);
    assert!(effects.contains(&Effect::StartProviderQuery { cid: c1 }));

    let effects = client.provider_found(&c1, &d, 1100);
    assert_eq!(effects, vec![Effect::Connect { peer: d }]);
    client.peer_connected(&d, 1110);
    let sent = flush(&mut client, &d, 1130);
    assert_eq!(wants(&sent, c1, WantType::Have), 1);

    assert!(client.receive_message(&d, &have(c1), 1140).effects.is_empty());
    let sent = flush(&mut client, &d, 1160);
    assert_eq!(wants(&sent, c1, WantType::Block), 1);

    let r = client.receive_message(&d, &block(c1, b"data"), 1170);
    assert!(r.effects.contains(&Effect::Deliver { session, cid: c1 }));
    for p in [&a, &b, &c] {
        let sent = flush(&mut client, p, 1200);
        assert_eq!(cancels(&sent, c1), 1);
    }
    assert!(flush(&mut client, &d, 1200).is_empty());
    assert!(client.get_wantlist().is_empty());
}

#[test]
fn duplicate_suppression() {
    let (a, c1) = (peer(1), cid(1));
    let mut client = Client::new(Config::default());
    client.peer_connected(&a, 0);
    client.get_block_with_session_id(7, &c1, 0);
    client.get_block_with_session_id(7, &c1, 1);
    let sent = flush(&mut client, &a, 30);
    assert_eq!(sent.len(), 1);
    assert_eq!(wants(&sent, c1, WantType::Have), 1);
    client.receive_message(&a, &have(c1), 40);
    client.receive_message(&a, &have(c1), 41);
    client.get_block_with_session_id(7, &c1, 42);
    let sent = flush(&mut client, &a, 100);
    assert_eq!(sent.len(), 1);
    assert_eq!(wants(&sent, c1, WantType::Block), 1);
}

#[test]
fn peer_churn() {
    let (a, b, c1) = (peer(1), peer(2), cid(1));
    let mut client = Client::new(Config::default());
    client.peer_connected(&a, 0);
    client.peer_connected(&b, 0);
    client.get_block_with_session_id(1, &c1, 0);
    flush(&mut client, &a, 20);
    flush(&mut client, &b, 20);
    client.receive_message(&b, &have(c1), 30);
    let sent = flush(&mut client, &b, 60);
    assert_eq!(wants(&sent, c1, WantType::Block), 1);
    client.receive_message(&a, &have(c1), 70);
    assert!(flush(&mut client, &a, 100).is_empty());

    client.peer_disconnected(&b, 200);
    assert!(client.poll(&b, 10_000).is_none());
    client.tick(1030);
    let sent = flush(&mut client, &a, 1100);
    assert_eq!(wants(&sent, c1, WantType::Block), 1);
}

fn timeout_run(simulate: bool) -> Vec<Entry> {
    let (a, b, c1) = (peer(1), peer(2), cid(1));
    let mut client = Client::new(Config {
        provider_search_delay: 1000,
        rebroadcast_delay: 60_000,
        simluate_donthaves_on_timeout: simulate,
    });
    client.peer_connected(&a, 0);
    client.peer_connected(&b, 0);
    client.get_block_with_session_id(1, &c1, 0);
    flush(&mut client, &a, 20);
    flush(&mut client, &b, 20);
    client.receive_message(&a, &have(c1), 30);
    let sent = flush(&mut client, &a, 60);
    assert_eq!(wants(&sent, c1, WantType::Block), 1);
    // The want-block went out at 30 after a round trip of 10 ms: the peer
    // has until 30 + 3 * 10 + 1000.
    client.tick(1059);
    assert!(flush(&mut client, &b, 1059).is_empty());
    client.tick(1060);
    flush(&mut client, &b, 1100)
}

#[test]
fn timeout_synthesis() {
    let c1 = cid(1);
    let with = timeout_run(true);
    assert_eq!(wants(&with, c1, WantType::Block), 1);
    let without = timeout_run(false);
    assert_eq!(wants(&without, c1, WantType::Block), 0);
}

#[test]
fn real_dont_have_escalates() {
    let (a, b, c1) = (peer(1), peer(2), cid(1));
    let mut client = Client::new(Config {
        provider_search_delay: 1000,
        rebroadcast_delay: 60_000,
        simluate_donthaves_on_timeout: false,
    });
    client.peer_connected(&a, 0);
    client.peer_connected(&b, 0);
    client.get_block_with_session_id(1, &c1, 0);
    flush(&mut client, &a, 20);
    flush(&mut client, &b, 20);
    client.receive_message(&a, &have(c1), 30);
    flush(&mut client, &a, 60);
    client.receive_message(&a, &dont_have(c1), 70);
    let sent = flush(&mut client, &b, 100);
    assert_eq!(wants(&sent, c1, WantType::Block), 1);
}

#[test]
fn notify_new_blocks_races_get_block() {
    let (a, c1) = (peer(1), cid(1));
    let mut client = Client::new(Config::default());
    client.peer_connected(&a, 0);
    let (session, _) = client.get_block(&c1, 0);
    let effects = client.notify_new_blocks(&vec![Block::new(b"D1".to_vec(), c1)], 5);
    assert_eq!(effects, vec![Effect::Deliver { session, cid: c1 }]);
    assert!(flush(&mut client, &a, 20).is_empty());
    assert!(flush(&mut client, &a, 100_000).is_empty());
    assert!(client.tick(100_000).is_empty());
    assert!(client.get_wantlist().is_empty());
}
