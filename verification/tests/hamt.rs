use iroh_bitswap::hamt::{
    calculate_padding_len, check_depth, from_node, get_value, hash_key, log2, name_matches,
    names_entry, to_be_bytes, Bitfield, Error, Hamt, HamtHashFunction, HashBits, Node, Shape, Step,
    MAX_DEPTH,
};

#[test]
fn test_hash_key() {
    assert_eq!(
        hash_key("1.txt".as_bytes()),
        [7, 193, 130, 130, 92, 180, 71, 225]
    );
}

#[test]
fn hash_key_differs_between_names() {
    assert_ne!(hash_key(b"1.txt"), hash_key(b"2.txt"));
    assert_eq!(hash_key(b""), hash_key(b""));
}

#[test]
fn be_bytes_are_most_significant_first() {
    assert_eq!(to_be_bytes(0x0102_0304_0506_0708), [1, 2, 3, 4, 5, 6, 7, 8]);
    assert_eq!(to_be_bytes(0), [0; 8]);
    assert_eq!(to_be_bytes(u64::MAX), [255; 8]);
}

#[test]
fn log2_of_powers_and_between() {
    assert_eq!(log2(1), 0);
    assert_eq!(log2(2), 1);
    assert_eq!(log2(3), 1);
    assert_eq!(log2(256), 8);
    assert_eq!(log2(257), 8);
    assert_eq!(log2(u32::MAX), 31);
}

#[test]
fn padding_len_counts_hex_digits() {
    assert_eq!(calculate_padding_len(None), 2);
    assert_eq!(calculate_padding_len(Some(256)), 2);
    assert_eq!(calculate_padding_len(Some(1)), 1);
    assert_eq!(calculate_padding_len(Some(16)), 1);
    assert_eq!(calculate_padding_len(Some(17)), 2);
    assert_eq!(calculate_padding_len(Some(4096)), 3);
    assert_eq!(calculate_padding_len(Some(u32::MAX)), 8);
}

#[test]
fn shard_shape() {
    assert_eq!(
        from_node(Some(HamtHashFunction::Murmur3), None),
        Ok(Shape { bit_width: 8, padding_len: 2 })
    );
    assert_eq!(
        from_node(Some(HamtHashFunction::Murmur3), Some(16)),
        Ok(Shape { bit_width: 4, padding_len: 1 })
    );
    assert_eq!(from_node(None, Some(16)), Err(Error::HamtOnlyMurmur3));
    assert_eq!(from_node(Some(HamtHashFunction::Unknown), Some(0)), Err(Error::HamtOnlyMurmur3));
    assert_eq!(
        from_node(Some(HamtHashFunction::Murmur3), Some(0)),
        Err(Error::FanoutMustBeNonZero)
    );
}

#[test]
fn depth_is_bounded() {
    assert_eq!(check_depth(0), Ok(()));
    assert_eq!(check_depth(MAX_DEPTH - 1), Ok(()));
    assert_eq!(check_depth(MAX_DEPTH), Err(Error::MaxDepthReached));
}

#[test]
fn names_without_prefix() {
    assert!(name_matches(Some(b"F01.txt"), 2, b"1.txt"));
    assert!(!name_matches(Some(b"F01.txt"), 2, b"2.txt"));
    assert!(!name_matches(Some(b"F01.txt"), 2, b"1.tx"));
    assert!(name_matches(Some(b"F0"), 2, b""));
    assert!(name_matches(None, 2, b""));
    assert!(!name_matches(None, 2, b"a"));
    assert!(names_entry(7, 2));
    assert!(!names_entry(2, 2));
}

#[test]
fn hashed_key_is_read_from_the_top() {
    let mut bits = HashBits::new([0b1010_0101, 0x0f, 0xf0, 0, 0, 0, 0, 0x81]);
    assert_eq!(bits.next(4), Ok(0b1010));
    assert_eq!(bits.next(4), Ok(0b0101));
    assert_eq!(bits.next(0), Err(Error::InvalidHashBitLen));
    assert_eq!(bits.next(9), Err(Error::InvalidHashBitLen));
    assert_eq!(bits.next(4), Ok(0));
    assert_eq!(bits.next(8), Ok(0xff));
    assert_eq!(bits.next(1), Ok(0));
    assert_eq!(bits.next(3), Ok(0));
    for _ in 0..4 {
        assert_eq!(bits.next(8), Ok(0));
    }
    assert_eq!(bits.next(7), Ok(0b100_0000));
    assert_eq!(bits.next(2), Err(Error::MaxDepthReached));
    assert_eq!(bits.next(1), Ok(1));
    assert_eq!(bits.next(1), Err(Error::MaxDepthReached));
}

#[test]
fn bitfield_counts_the_slots_below() {
    let b = Bitfield::from_slice(&[0b0000_0001, 0b0000_0101]);
    assert!(b.test_bit(0));
    assert!(!b.test_bit(1));
    assert!(b.test_bit(2));
    assert!(b.test_bit(8));
    assert!(!b.test_bit(9));
    assert!(!b.test_bit(16));
    assert!(!b.test_bit(u32::MAX));
    assert_eq!(b.index_for_bit_pos(0), 0);
    assert_eq!(b.index_for_bit_pos(1), 1);
    assert_eq!(b.index_for_bit_pos(2), 1);
    assert_eq!(b.index_for_bit_pos(8), 2);
    assert_eq!(b.index_for_bit_pos(9), 3);
    assert_eq!(b.index_for_bit_pos(300), 3);
    assert_eq!(Bitfield::from_slice(&[]).index_for_bit_pos(10), 0);
}

#[test]
fn lookup_step_by_step() {
    // Slots 3, 7 and 200 are taken.
    let mut bytes = [0u8; 32];
    bytes[31] = 0b1000_1000;
    bytes[31 - 25] = 0b0000_0001;
    let field = Bitfield::from_slice(&bytes);
    let mut key = HashBits::new([7, 200, 3, 9, 0, 0, 0, 0]);
    assert_eq!(get_value(&field, &mut key, 8, 0), Ok(Step::Child(1)));
    assert_eq!(get_value(&field, &mut key, 8, 1), Ok(Step::Child(2)));
    assert_eq!(get_value(&field, &mut key, 8, 2), Ok(Step::Child(0)));
    assert_eq!(get_value(&field, &mut key, 8, 3), Ok(Step::Absent));
    assert_eq!(get_value(&field, &mut key, 8, MAX_DEPTH), Err(Error::MaxDepthReached));
    assert_eq!(get_value(&field, &mut key, 0, 4), Err(Error::InvalidHashBitLen));
    assert_eq!(get_value(&field, &mut key, 16, 4), Err(Error::InvalidHashBitLen));
    // A step that fails reads nothing: the next step reads the fifth byte.
    let mut fresh = HashBits::new([7, 200, 3, 9, 7, 0, 0, 0]);
    for depth in 0..4 {
        assert!(get_value(&field, &mut fresh, 8, depth).is_ok());
    }
    assert_eq!(get_value(&field, &mut fresh, 8, 8), Err(Error::MaxDepthReached));
    assert_eq!(get_value(&field, &mut fresh, 8, 4), Ok(Step::Child(1)));
    let mut short = HashBits::new(hash_key(b"1.txt"));
    for depth in 0..8 {
        assert!(get_value(&field, &mut short, 8, depth).is_ok());
    }
    assert_eq!(get_value(&field, &mut short, 8, 7), Err(Error::MaxDepthReached));
}

#[test]
fn directory_from_its_root_shard() {
    let murmur = Some(HamtHashFunction::Murmur3);
    let hamt = Hamt::from_node(murmur, Some(16), &[0b0000_0110]).unwrap();
    assert_eq!(hamt.padding_len(), 1);
    assert_eq!(Hamt::calculate_padding_len(Some(16)), 1);
    assert_eq!(Hamt::calculate_padding_len(None), 2);
    let root = hamt.root();
    assert_eq!(root.bit_width(), 4);
    assert_eq!(root.index_for_bit_pos(2), 1);
    let mut key = HashBits::new([0x21, 0x30, 0, 0, 0, 0, 0, 0]);
    assert_eq!(root.get_value(&mut key, 0), Ok(Step::Child(1)));
    assert_eq!(root.get_value(&mut key, 1), Ok(Step::Child(0)));
    assert_eq!(root.get_value(&mut key, 2), Ok(Step::Absent));
    assert_eq!(root.get_value(&mut key, 8), Err(Error::MaxDepthReached));
    assert_eq!(Hamt::from_node(None, None, &[]), Err(Error::HamtOnlyMurmur3));
    assert_eq!(Node::from_node(murmur, Some(0), &[]), Err(Error::FanoutMustBeNonZero));
    assert_eq!(Node::from_node(murmur, None, &[1]).unwrap().padding_len(), 2);
}
