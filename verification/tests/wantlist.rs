use iroh_bitswap::ident::{Cid, Multihash};
use iroh_bitswap::wantlist::{WantType, Wantlist};

fn cid(n: u8) -> Cid {
    let digest = vec![n; 32];
    Cid { version: 1, codec: 0x55, hash: Multihash::wrap(0x12, &digest).unwrap() }
}

#[test]
fn wantlist_orders_by_priority() {
    let mut w = Wantlist::new();
    assert!(w.add(cid(1), 5, WantType::Have));
    assert!(w.add(cid(2), 9, WantType::Block));
    assert!(w.add(cid(3), 5, WantType::Block));
    let entries = w.entries();
    assert_eq!(entries.len(), 3);
    assert_eq!(entries[0].cid, cid(2));
    assert_eq!(entries[1].cid, cid(1));
    assert_eq!(entries[2].cid, cid(3));
}
