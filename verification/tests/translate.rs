use exomem::{translate_file_offset, BlockSize, FileOffset, MAX_FILE_SIZE};

fn tr(offset: u64) -> (u32, u32) {
    let (index, in_block) = translate_file_offset(FileOffset::new(offset).unwrap());
    (index.value(), in_block.value())
}

#[test]
fn file_offset_translation() {
    // A very simple single block case
    assert_eq!(tr(4000), (0, 4000));

    // Simple two block case
    assert_eq!(tr(7000), (1, 2904));

    // Test every prefix of the size strategy
    let mut total: u64 = 0;
    let mut idx: u32 = 0;
    for size_marker in 0..16u8 {
        let size = BlockSize::from_marker(size_marker).value();
        for n in 0..16 {
            if n == 15 && size_marker > 3 {
                for _ in 0..(size_marker - 3) {
                    total += size as u64;
                    idx += 1;
                    assert_eq!(tr(total), (idx, 0));
                    assert_eq!(tr(total - 1), (idx - 1, size - 1));
                    assert_eq!(tr(total + 1), (idx, 1));
                }
            }
            total += size as u64;
            idx += 1;
            assert_eq!(tr(total), (idx, 0));
            assert_eq!(tr(total - 1), (idx - 1, size - 1));
            assert_eq!(tr(total + 1), (idx, 1));
        }
    }

    // We try 8138 extra 128 MiB blocks on top for a total size of 1 TiB
    let size = BlockSize::from_marker(15).value();
    for _ in 0..8138 {
        total += size as u64;
        idx += 1;
        assert_eq!(tr(total), (idx, 0));
        assert_eq!(tr(total - 1), (idx - 1, size - 1));
        assert_eq!(tr(total + 1), (idx, 1));
    }

    // 32 TiB with some ~118 MiB of change
    assert_eq!(tr(2u64.pow(45) + 123456789), (262424, 123456789));

    assert_eq!(tr(2u64.pow(50)), (8388888, 0)); // 1 PiB

    assert_eq!(tr(2u64.pow(58)), (2u32.pow(31) + 280, 0)); // 256 PiB

    assert_eq!(tr(MAX_FILE_SIZE - 1), (u32::MAX, 2u32.pow(27) - 1));
}

#[test]
fn file_offset_at_the_limit_is_rejected() {
    assert!(FileOffset::new(MAX_FILE_SIZE).is_none());
    assert!(FileOffset::new(u64::MAX).is_none());
}
