use iroh_bitswap::cli::{transform_error, ApiError, CliError, Report};
use iroh_bitswap::client::{Client, Config, Stat};
use iroh_bitswap::codec::{cid_from_bytes, cid_to_string_v1, links_from_bytes, CidError};
use iroh_bitswap::content_loader::{
    check_gateway_response, first_of_race, next_gateway, second_of_race, Error as LoadError,
    GatewayUrl,
};
use iroh_bitswap::gateway::{Error as GatewayError, Gateway, Method};
use iroh_bitswap::ident::{Block, Cid, Multihash, PeerId};
use iroh_bitswap::message::{cids_of_blocks, BitswapMessage, BlockPresence, BlockPresenceType};
use iroh_bitswap::process::{
    daemonize, daemonize_process, daemonize_result, stop, stop_process, stop_result,
    Error as ProcessError, IoFailure, KillRequest, Platform, Signal,
};
use iroh_bitswap::swarm::{
    build_swarm, Error as SwarmError, Libp2pConfig, CONNECTION_TIMEOUT_SECS,
    TRANSPORT_TIMEOUT_SECS, YAMUX_BUFFER_SIZE,
};
use iroh_bitswap::rpc::{
    check_bitswap_response, fetch_bitswap_request, needs_dht_lookup, Error as RpcError,
};

fn xcid(n: u8) -> Cid {
    Cid { version: 1, codec: 0x55, hash: Multihash::wrap(0x12, &vec![n; 32]).unwrap() }
}

fn outside(c: &Cid) -> cid::Cid {
    let hash = cid::multihash::Multihash::<64>::wrap(c.hash.code, &c.hash.digest_bytes()).unwrap();
    cid::Cid::new(cid::Version::try_from(c.version).unwrap(), c.codec, hash).unwrap()
}

#[test]
fn multihash_holds_its_digest() {
    let digest: Vec<u8> = (1..=64).collect();
    let m = Multihash::wrap(0x13, &digest).unwrap();
    assert_eq!(m.code, 0x13);
    assert_eq!(m.size, 64);
    assert_eq!(m.digest.w0, 0x0102_0304_0506_0708);
    assert_eq!(m.digest_bytes(), digest);
    let short = Multihash::wrap(0x12, &vec![0xab, 0xcd, 0xef]).unwrap();
    assert_eq!(short.size, 3);
    assert_eq!(short.digest.w0, 0xabcd_ef00_0000_0000);
    assert_eq!(short.digest.w1, 0);
    assert_eq!(short.digest_bytes(), vec![0xab, 0xcd, 0xef]);
    assert_eq!(Multihash::wrap(0, &vec![]).unwrap().digest_bytes(), Vec::<u8>::new());
    assert!(Multihash::wrap(0x12, &vec![0; 65]).is_none());
    assert_eq!(Multihash::wrap(0x12, &vec![7; 32]), Multihash::wrap(0x12, &vec![7; 32]));
    assert_ne!(Multihash::wrap(0x12, &vec![7; 32]), Multihash::wrap(0x12, &vec![7; 31]));
}

#[test]
fn blocks_keep_what_they_are_given() {
    let b = Block::new(vec![1, 2, 3], xcid(1));
    assert_eq!(b.cid(), xcid(1));
    assert_eq!(b.data(), &vec![1, 2, 3]);
    let d = b.duplicate();
    assert_eq!(d.cid, b.cid);
    assert_eq!(d.data, b.data);
    assert_eq!(cids_of_blocks(&vec![b, Block::new(vec![], xcid(2))]), vec![xcid(1), xcid(2)]);
}

#[test]
fn message_tells_haves_from_dont_haves() {
    let mut m = BitswapMessage::new(true);
    assert!(m.full);
    assert_eq!(m.blocks_len(), 0);
    for (n, typ) in [
        (1, BlockPresenceType::Have),
        (2, BlockPresenceType::DontHave),
        (3, BlockPresenceType::Have),
    ] {
        m.block_presences.push(BlockPresence { cid: xcid(n), typ });
    }
    m.blocks.push(Block::new(vec![9], xcid(4)));
    assert_eq!(m.haves(), vec![xcid(1), xcid(3)]);
    assert_eq!(m.dont_haves(), vec![xcid(2)]);
    assert_eq!(m.blocks_len(), 1);
    assert_eq!(m.blocks()[0].cid, xcid(4));
}

#[test]
fn cid_bytes_round_trip_through_the_codec() {
    let c = xcid(5);
    let mut bytes = outside(&c).to_bytes();
    assert_eq!(cid_from_bytes(&bytes), Ok(c));
    bytes.extend_from_slice(b"trailing bytes are not read");
    assert_eq!(cid_from_bytes(&bytes), Ok(c));
    assert_eq!(cid_from_bytes(&vec![]), Err(CidError::Malformed));
    assert_eq!(cid_from_bytes(&vec![1, 0x55, 0x12, 32, 1, 2]), Err(CidError::Malformed));
    let v0 = cid::Cid::new_v0(cid::multihash::Multihash::wrap(0x12, &[3; 32]).unwrap()).unwrap();
    let read = cid_from_bytes(&v0.to_bytes()).unwrap();
    assert_eq!((read.version, read.codec, read.hash.code), (0, 0x70, 0x12));
    assert_eq!(read.hash.digest_bytes(), vec![3; 32]);
}

#[test]
fn links_are_read_one_by_one() {
    let all = vec![outside(&xcid(1)).to_bytes(), outside(&xcid(2)).to_bytes()];
    assert_eq!(links_from_bytes(&all), Ok(vec![xcid(1), xcid(2)]));
    assert_eq!(links_from_bytes(&vec![]), Ok(vec![]));
    let broken = vec![outside(&xcid(1)).to_bytes(), vec![0xff]];
    assert_eq!(links_from_bytes(&broken), Err(CidError::Malformed));
}

#[test]
fn cid_text_is_version_one_base32() {
    let empty = [
        0xe3, 0xb0, 0xc4, 0x42, 0x98, 0xfc, 0x1c, 0x14, 0x9a, 0xfb, 0xf4, 0xc8, 0x99, 0x6f, 0xb9,
        0x24, 0x27, 0xae, 0x41, 0xe4, 0x64, 0x9b, 0x93, 0x4c, 0xa4, 0x95, 0x99, 0x1b, 0x78, 0x52,
        0xb8, 0x55,
    ];
    let c = Cid { version: 1, codec: 0x55, hash: Multihash::wrap(0x12, &empty.to_vec()).unwrap() };
    let text = cid_to_string_v1(&c).unwrap();
    assert_eq!(text, "bafkreihdwdcefgh4dqkjv67uzcmw7ojee6xedzdetojuzjevtenxquvyku");
    assert_eq!(
        text,
        outside(&c).to_string_of_base(cid::multibase::Base::Base32Lower).unwrap()
    );
    let v0 = Cid { version: 0, codec: 0x70, hash: c.hash };
    let as_v1 = Cid { version: 1, codec: 0x70, hash: c.hash };
    assert_eq!(cid_to_string_v1(&v0), cid_to_string_v1(&as_v1));
    assert!(cid_to_string_v1(&v0).unwrap().starts_with("bafybei"));
    assert_eq!(cid_to_string_v1(&Cid { version: 0, codec: 0x55, hash: c.hash }), None);
    assert_eq!(cid_to_string_v1(&Cid { version: 2, codec: 0x55, hash: c.hash }), None);
}

#[test]
fn gateway_urls() {
    assert_eq!(
        GatewayUrl::from_str("https://Gateway.Example/ipfs/"),
        Ok(GatewayUrl::Full("https://gateway.example/ipfs/".to_string()))
    );
    assert_eq!(
        GatewayUrl::from_str("dweb.link"),
        Ok(GatewayUrl::Subdomain("dweb.link".to_string()))
    );
    assert_eq!(GatewayUrl::from_str("http"), Err(LoadError::UrlParse));
    assert_eq!(GatewayUrl::from_str("https://"), Err(LoadError::UrlParse));
    assert_eq!(GatewayUrl::from_str(""), Ok(GatewayUrl::Subdomain(String::new())));
    let full = GatewayUrl::from_str("https://gateway.example/ipfs/").unwrap();
    assert_eq!(full.as_string(), "https://gateway.example/ipfs/");
    assert_eq!(GatewayUrl::Subdomain("dweb.link".to_string()).as_string(), "dweb.link");

    let c = xcid(1);
    let text = cid_to_string_v1(&c).unwrap();
    assert_eq!(
        full.as_url(&c),
        Ok(format!("https://gateway.example/ipfs/{}?format=raw", text))
    );
    assert_eq!(
        GatewayUrl::Subdomain("dweb.link".to_string()).as_url(&c),
        Ok(format!("https://{}.ipfs.dweb.link/?format=raw", text))
    );
    assert_eq!(
        GatewayUrl::Subdomain("not a host".to_string()).as_url(&c),
        Err(LoadError::UrlParse)
    );
    assert_eq!(
        GatewayUrl::Full("no url".to_string()).as_url(&c),
        Err(LoadError::UrlParse)
    );
    let bad = Cid { version: 0, codec: 0x55, hash: c.hash };
    assert_eq!(full.as_url(&bad), Err(LoadError::CidFormat));
}

#[test]
fn next_gateway_is_one_of_the_gateways() {
    assert_eq!(next_gateway(&vec![]), None);
    let one = vec![GatewayUrl::Subdomain("a".to_string())];
    assert_eq!(next_gateway(&one), Some(&one[0]));
    let many: Vec<GatewayUrl> =
        (0..8).map(|n| GatewayUrl::Subdomain(format!("gw{}", n))).collect();
    for _ in 0..50 {
        assert!(many.contains(next_gateway(&many).unwrap()));
    }
}

#[test]
fn loading_decisions() {
    assert_eq!(check_gateway_response(true, Some(true)), Ok(()));
    assert_eq!(check_gateway_response(false, Some(true)), Err(LoadError::UnexpectedHttpStatus));
    assert_eq!(check_gateway_response(true, Some(false)), Err(LoadError::InvalidHash));
    assert_eq!(check_gateway_response(true, None), Err(LoadError::InvalidHash));
    assert_eq!(first_of_race(Ok(Some(5))), Some(5));
    assert_eq!(first_of_race::<u8>(Ok(None)), None);
    assert_eq!(first_of_race::<u8>(Err(LoadError::InvalidHash)), None);
    assert_eq!(second_of_race(Ok(Some(5)), xcid(1)), Ok(5));
    assert_eq!(second_of_race::<u8>(Ok(None), xcid(1)), Err(LoadError::FailedToFind(xcid(1))));
    assert_eq!(
        second_of_race::<u8>(Err(LoadError::UnexpectedHttpStatus), xcid(1)),
        Err(LoadError::UnexpectedHttpStatus)
    );
}

#[test]
fn gateway_error_answers() {
    assert_eq!(Gateway::default(), Gateway {});
    let e = GatewayError::GatewayError {
        status_code: 404,
        message: "not found".to_string(),
        trace_id: 0xabc,
        method: None,
    };
    let r = e.clone().into_response();
    assert_eq!(r.status, 404);
    assert_eq!(r.trace_header, Some(0xabc));
    let body = r.body.unwrap();
    assert_eq!((body.code, body.success, body.message.as_str()), (404, false, "not found"));
    assert_eq!(body.trace_id, Some(0xabc));

    let head = e.clone().with_method(Method::Head);
    assert!(matches!(head, GatewayError::GatewayError { method: Some(Method::Head), .. }));
    let r = head.into_response();
    assert_eq!((r.status, r.trace_header), (404, Some(0xabc)));
    assert!(r.body.is_none());

    let plain = GatewayError::GatewayError {
        status_code: 500,
        message: "boom".to_string(),
        trace_id: 0,
        method: Some(Method::Get),
    };
    let r = plain.into_response();
    assert_eq!(r.trace_header, None);
    assert_eq!(r.body.unwrap().trace_id, None);
    assert!(matches!(
        GatewayError::RootCidNotFound.with_method(Method::Head),
        GatewayError::RootCidNotFound
    ));
    assert!(matches!(
        GatewayError::Car("x".to_string()).with_method(Method::Get),
        GatewayError::Car(_)
    ));
}

#[test]
fn process_commands() {
    let c = daemonize("/usr/bin/iroh-store", "/var/log/iroh/store.log").unwrap();
    assert_eq!(c.program, "bash");
    assert_eq!(c.args, vec!["-c", "nohup /usr/bin/iroh-store > /var/log/iroh/store.log 2>&1 &"]);
    assert!(daemonize_process(Platform::MacOs, "a", "b").is_ok());
    assert!(matches!(
        daemonize_process(Platform::Windows, "a", "b"),
        Err(ProcessError::DaemonizingNotSupportedOnWindows)
    ));
    assert!(matches!(
        daemonize_process(Platform::Other, "a", "b"),
        Err(ProcessError::DaemonizingNotSupported)
    ));
    assert!(daemonize_result(Ok(true)).is_ok());
    assert!(matches!(daemonize_result(Ok(false)), Err(ProcessError::CloudNotDaemonize)));
    let denied = IoFailure { connection_refused: false, message: "denied".to_string() };
    assert!(matches!(
        daemonize_result(Err(denied.clone())),
        Err(ProcessError::Io(f)) if f == denied
    ));

    assert_eq!(stop(1234).unwrap(), KillRequest { pid: 1234, signal: Signal::Interrupt });
    assert_eq!(stop(0).unwrap().pid, 0);
    assert_eq!(stop(i32::MAX as u32).unwrap().pid, i32::MAX);
    assert_eq!(stop(0x8000_0000).unwrap().pid, i32::MIN);
    assert_eq!(stop(u32::MAX).unwrap().pid, -1);
    assert!(matches!(
        stop_process(Platform::Windows, 1),
        Err(ProcessError::DaemonizingNotSupportedOnWindows)
    ));
    assert!(matches!(
        stop_process(Platform::Other, 1),
        Err(ProcessError::DaemonizingNotSupported)
    ));
    assert!(stop_result(None).is_ok());
    assert!(matches!(stop_result(Some(3)), Err(ProcessError::Nix(3))));
}

#[test]
fn command_line_reports() {
    assert!(transform_error(Ok(())).is_ok());
    let refused = CliError::Io { connection_refused: true, message: "os error 111".to_string() };
    match transform_error(Err(refused)) {
        Err(Report::Hinted { message, hint }) => {
            assert_eq!(message, "Connection refused. Are services running?");
            assert_eq!(hint, "hint: see 'iroh start' for more on starting services");
        }
        other => panic!("unexpected {:?}", other),
    }
    let api = CliError::Api(ApiError::ConnectionRefused { service: "store".to_string() });
    match transform_error(Err(api)) {
        Err(Report::Hinted { message, hint }) => {
            assert_eq!(
                message,
                "Connection refused. This command requires a running store service."
            );
            assert_eq!(hint, "hint: try 'iroh start store'");
        }
        other => panic!("unexpected {:?}", other),
    }
    let io = CliError::Io { connection_refused: false, message: "disk full".to_string() };
    assert!(matches!(
        transform_error(Err(io)),
        Err(Report::Plain(CliError::Io { connection_refused: false, message })) if message == "disk full"
    ));
    assert!(matches!(
        transform_error(Err(CliError::Api(ApiError::Other("x".to_string())))),
        Err(Report::Plain(CliError::Api(ApiError::Other(_))))
    ));
    assert!(matches!(
        transform_error(Err(CliError::Other("y".to_string()))),
        Err(Report::Plain(CliError::Other(_)))
    ));
}

#[test]
fn rpc_checks() {
    let c = xcid(1);
    let bytes = outside(&c).to_bytes();
    assert_eq!(
        fetch_bitswap_request(&bytes, Some(vec![vec![1, 2]])),
        Ok((c, vec![vec![1, 2]]))
    );
    assert_eq!(fetch_bitswap_request(&bytes, Some(vec![])), Ok((c, vec![])));
    assert_eq!(fetch_bitswap_request(&bytes, None), Err(RpcError::MissingProviders(c)));
    assert_eq!(
        fetch_bitswap_request(&vec![0xff], None),
        Err(RpcError::Cid(CidError::Malformed))
    );
    assert_eq!(check_bitswap_response(c, c), Ok(()));
    assert_eq!(
        check_bitswap_response(c, xcid(2)),
        Err(RpcError::UnexpBitswapResponse { expected: c, got: xcid(2) })
    );
    assert!(needs_dht_lookup(0));
    assert!(!needs_dht_lookup(3));
}

#[test]
fn config_defaults() {
    let c = Config::default();
    assert_eq!(c.provider_search_delay, 1000);
    assert_eq!(c.rebroadcast_delay, 60_000);
    assert!(c.simluate_donthaves_on_timeout);
    let s = Stat::default();
    assert!(s.wantlist.is_empty());
    assert_eq!(
        (s.blocks_received, s.data_received, s.dup_blks_received, s.dup_data_received, s.messages_received),
        (0, 0, 0, 0, 0)
    );
}

#[test]
fn stat_counts_messages_and_blocks() {
    let a = PeerId { hash: Multihash::wrap(0, &vec![1; 34]).unwrap() };
    let mut client = Client::new(Config::default());
    client.peer_connected(&a, 0);
    client.get_blocks_with_session_id(3, &vec![xcid(1), xcid(2)], 0);
    let mut m = BitswapMessage::new(false);
    m.blocks.push(Block::new(vec![0; 10], xcid(1)));
    m.blocks.push(Block::new(vec![0; 5], xcid(9)));
    let r = client.receive_message(&a, &m, 10);
    assert_eq!(r.wanted, vec![0]);
    client.receive_message(&a, &BitswapMessage::new(false), 11);
    let s = client.stat();
    assert_eq!(s.messages_received, 2);
    assert_eq!(s.blocks_received, 2);
    assert_eq!(s.data_received, 15);
    assert_eq!(s.dup_blks_received, 0);
    assert_eq!(s.dup_data_received, 0);
    assert_eq!(s.wantlist, vec![xcid(2)]);
    assert_eq!(client.get_wantlist().len(), 1);
    assert!(client.get_want_blocks().is_empty());
    assert!(client.get_want_haves().contains(&xcid(2)));
    assert_eq!(client.peers(), vec![a]);
}

#[test]
fn swarm_settings() {
    let config = Libp2pConfig {
        relay_client: true,
        max_conns_pending_in: 1,
        max_conns_pending_out: 2,
        max_conns_in: 3,
        max_conns_out: 4,
        max_conns_per_peer: 5,
        notify_handler_buffer_size: 256,
        connection_event_buffer_size: 0,
        dial_concurrency_factor: 8,
    };
    let plan = build_swarm(&config).unwrap();
    assert!(plan.relay);
    assert_eq!(plan.limits.max_pending_incoming, Some(1));
    assert_eq!(plan.limits.max_pending_outgoing, Some(2));
    assert_eq!(plan.limits.max_established_incoming, Some(3));
    assert_eq!(plan.limits.max_established_outgoing, Some(4));
    assert_eq!(plan.limits.max_established_per_peer, Some(5));
    assert_eq!(plan.notify_handler_buffer_size, 256);
    assert_eq!(plan.connection_event_buffer_size, 0);
    assert_eq!(plan.dial_concurrency_factor, 8);
    let zero = Libp2pConfig { notify_handler_buffer_size: 0, ..config };
    assert_eq!(build_swarm(&zero), Err(SwarmError::ZeroBufferSize));
    assert_eq!((TRANSPORT_TIMEOUT_SECS, CONNECTION_TIMEOUT_SECS), (10, 30));
    assert_eq!(YAMUX_BUFFER_SIZE, 16 * 1024 * 1024);
}
