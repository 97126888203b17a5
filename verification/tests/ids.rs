use exomem::{BlockId, BlockOffset, BlockSize, FileOffset, FileSize, MAX_BLOCK_SIZE, MAX_FILE_SIZE};

#[test]
fn block_size() {
    for size_marker in 0..15u8 {
        let size = BlockSize::from_marker(size_marker).value();
        assert_eq!(size, 2u32.pow(12 + size_marker as u32));
        assert!(BlockSize::valid(size));
        assert!(!BlockSize::valid(size - 1));
        assert!(!BlockSize::valid(size + 1));
    }
    assert!(BlockSize::valid(MAX_BLOCK_SIZE));
    assert!(!BlockSize::valid(MAX_BLOCK_SIZE - 1));
    assert!(!BlockSize::valid(MAX_BLOCK_SIZE + 1));
    assert!(!BlockSize::valid(2u32.pow(28)));
    assert!(!BlockSize::valid(2u32.pow(29) + 45));
    assert!(!BlockSize::valid(2u32.pow(30) + 123456));
}

/// Make sure that all `BlockId` variants are properly detected.
#[test]
fn block_id_header() {
    let mut id_bytes = [0u8; 32];
    for (i, b) in id_bytes.iter_mut().enumerate() {
        *b = (i as u8).wrapping_mul(37).wrapping_add(11);
    }

    id_bytes[0] = 0b0000_0000;
    let block_id = BlockId::from_data(id_bytes);
    assert!(block_id.supported_version());
    assert!(block_id.valid());
    assert!(!block_id.block_has_header());
    assert_eq!(block_id.block_size(), BlockSize::new(4096).unwrap());

    id_bytes[0] = 0b0000_0001;
    let block_id = BlockId::from_data(id_bytes);
    assert!(!block_id.supported_version());
    assert!(!block_id.valid());

    for unused_bit_a in 0..=1 {
        for unused_bit_b in 0..=1 {
            for header in 0..=1 {
                for size_marker in 0..=0x0Fu8 {
                    id_bytes[0] = 0b0000_0000;
                    if unused_bit_a == 1 {
                        id_bytes[0] |= 0b1000_0000;
                    }
                    if unused_bit_b == 1 {
                        id_bytes[0] |= 0b0100_0000;
                    }
                    if header == 1 {
                        id_bytes[0] |= 0b0000_0010;
                    }
                    id_bytes[0] |= size_marker << 2;

                    let block_id = BlockId::from_data(id_bytes);
                    assert!(block_id.supported_version());
                    assert_eq!(block_id.block_has_header(), header == 1);
                    assert_eq!(
                        block_id.block_size(),
                        BlockSize::new(2u32.pow(12 + size_marker as u32)).unwrap()
                    );

                    if unused_bit_a == 1 || unused_bit_b == 1 {
                        assert!(!block_id.valid());
                    } else {
                        assert!(block_id.valid());
                    }
                }
            }
        }
    }
}

/// Make sure that `BlockId` is sorted by size.
#[test]
fn block_id_sorting() {
    let mut bids = Vec::new();
    let mut id_bytes = [0u8; 32];

    for (i, b) in id_bytes.iter_mut().enumerate() {
        *b = (i as u8).wrapping_mul(101).wrapping_add(43);
    }
    id_bytes[0] = 0b0001_1100;
    let bid_a = BlockId::from_data(id_bytes);
    bids.push(bid_a);
    for (i, b) in id_bytes.iter_mut().enumerate() {
        *b = (i as u8).wrapping_mul(59).wrapping_add(7);
    }
    id_bytes[0] = 0b0011_1100;
    let bid_b = BlockId::from_data(id_bytes);
    bids.push(bid_b);
    for (i, b) in id_bytes.iter_mut().enumerate() {
        *b = (i as u8).wrapping_mul(13).wrapping_add(91);
    }
    id_bytes[0] = 0b0001_1010;
    let bid_c = BlockId::from_data(id_bytes);
    bids.push(bid_c);
    for (i, b) in id_bytes.iter_mut().enumerate() {
        *b = (i as u8).wrapping_mul(211).wrapping_add(3);
    }
    id_bytes[0] = 0b0011_1000;
    let bid_d = BlockId::from_data(id_bytes);
    bids.push(bid_d);

    // Before sort
    assert_eq!(bids[0], bid_a); // 0b0001_1100
    assert_eq!(bids[1], bid_b); // 0b0011_1100
    assert_eq!(bids[2], bid_c); // 0b0001_1010
    assert_eq!(bids[3], bid_d); // 0b0011_1000

    bids.sort_unstable();

    // After sort
    assert_eq!(bids[0], bid_c); // 0b0001_1010
    assert_eq!(bids[1], bid_a); // 0b0001_1100
    assert_eq!(bids[2], bid_d); // 0b0011_1000
    assert_eq!(bids[3], bid_b); // 0b0011_1100

    // Sizes
    assert_eq!(bid_c.block_size(), BlockSize::new(2u32.pow(18)).unwrap()); // 0b0001_1010
    assert_eq!(bid_a.block_size(), BlockSize::new(2u32.pow(19)).unwrap()); // 0b0001_1100
    assert_eq!(bid_d.block_size(), BlockSize::new(2u32.pow(26)).unwrap()); // 0b0011_1000
    assert_eq!(bid_b.block_size(), BlockSize::new(2u32.pow(27)).unwrap()); // 0b0011_1100
}

#[test]
fn offset_and_size_bounds() {
    assert!(BlockOffset::new(0).is_some());
    assert!(BlockOffset::new(MAX_BLOCK_SIZE - 1).is_some());
    assert!(BlockOffset::new(MAX_BLOCK_SIZE).is_none());

    assert!(FileSize::new(MAX_FILE_SIZE).is_some());
    assert!(FileSize::new(MAX_FILE_SIZE + 1).is_none());

    assert!(FileOffset::new(0).is_some());
    assert!(FileOffset::new(MAX_FILE_SIZE - 1).is_some());
    assert!(FileOffset::new(MAX_FILE_SIZE).is_none());
}
