use exomem::{Block, InfoBlock, NodeKind, VaultError};

/// A block whose bytes are not the structured format is rejected.
#[test]
fn malformed_bytes_do_not_decode() {
    let junk = Block::from_vec(vec![0xFFu8; 16]);
    assert!(matches!(junk.info(), Err(VaultError::MalformedBlock)));
    // a short buffer cannot even hold the node count
    assert!(matches!(Block::from_vec(vec![1, 2]).info(), Err(VaultError::MalformedBlock)));
}

/// Directory operations demand a directory node at the given index.
#[test]
fn wrong_node_shape_is_rejected() {
    let empty = InfoBlock::new_index().info().unwrap();
    assert!(matches!(empty.directory_list(0), Err(VaultError::UnexpectedNode)));
    assert!(matches!(
        empty.get_root_id_and_index_id(),
        Err(VaultError::MalformedBlock)
    ));

    let dir = InfoBlock::new_directory().info().unwrap();
    assert!(matches!(
        dir.get_root_id_and_index_id(),
        Err(VaultError::UnexpectedNode)
    ));
    assert!(matches!(dir.update_root_id(
        &exomem::BlockId::from_data([1u8; 32])
    ), Err(VaultError::UnexpectedNode)));
}

/// Creating an inline vault node is reserved.
#[test]
fn inline_vault_nodes_are_reserved() {
    let dir = InfoBlock::new_directory().info().unwrap();
    assert!(matches!(
        dir.directory_create_local_node(0, "sub", NodeKind::Vault),
        Err(VaultError::Unimplemented)
    ));
}

/// A hand-written block in the wire format decodes, and its reserved
/// shard entry is refused on lookup.
///
/// Format: node count (u32 LE), then nodes; a directory node is tag 0,
/// an entry count (u32 LE) and entries; an entry is a name length
/// (u32 LE), the name bytes and an id; a shard id is tag 2 and a u64 LE;
/// the whole block is zero-padded to the smallest permitted size.
#[test]
fn handwritten_shard_entry_is_unsupported() {
    let mut bytes = Vec::new();
    bytes.extend_from_slice(&1u32.to_le_bytes()); // one node
    bytes.push(0); // a directory
    bytes.extend_from_slice(&1u32.to_le_bytes()); // one entry
    bytes.extend_from_slice(&4u32.to_le_bytes()); // name of four bytes
    bytes.extend_from_slice(b"far1");
    bytes.push(2); // a shard reference
    bytes.extend_from_slice(&77u64.to_le_bytes());
    bytes.resize(4096, 0);

    let info = Block::from_vec(bytes).info().unwrap();
    assert_eq!(info.node_count(), 1);
    let listing = info.directory_list(0);
    assert!(matches!(listing, Err(VaultError::Unimplemented)));
    assert!(matches!(
        info.directory_get_entry_block_id_and_node_index(0, "far1"),
        Err(VaultError::ShardUnsupported)
    ));
    assert!(matches!(
        info.directory_set_entry_block_id_and_node_index(0, "far1", None, 0),
        Err(VaultError::ShardUnsupported)
    ));
}

/// A hand-written block with a local entry lists with the right kind,
/// and a block id on the wire is its 32 raw bytes in order.
#[test]
fn handwritten_directory_block_decodes() {
    let id_bytes: [u8; 32] = {
        let mut a = [0u8; 32];
        for (i, b) in a.iter_mut().enumerate() {
            *b = i as u8;
        }
        a
    };
    let mut bytes = Vec::new();
    bytes.extend_from_slice(&2u32.to_le_bytes()); // two nodes
    bytes.push(0); // node 0: a directory
    bytes.extend_from_slice(&2u32.to_le_bytes()); // two entries
    bytes.extend_from_slice(&3u32.to_le_bytes());
    bytes.extend_from_slice(b"sub");
    bytes.push(0); // a local reference
    bytes.extend_from_slice(&1u16.to_le_bytes());
    bytes.extend_from_slice(&5u32.to_le_bytes());
    bytes.extend_from_slice(b"other");
    bytes.push(1); // a block reference: the 32 raw id bytes
    bytes.extend_from_slice(&id_bytes);
    bytes.push(1); // node 1: a file
    bytes.extend_from_slice(&9u64.to_le_bytes());
    bytes.push(0); // its content reference, local
    bytes.extend_from_slice(&0u16.to_le_bytes());
    bytes.resize(4096, 0);

    let info = Block::from_vec(bytes).info().unwrap();
    assert_eq!(info.node_count(), 2);
    match info.directory_get_entry_block_id_and_node_index(0, "sub").unwrap() {
        Some((None, k)) => assert_eq!(k, 1),
        other => panic!("unexpected lookup result: {:?}", other),
    }
    match info.directory_get_entry_block_id_and_node_index(0, "other").unwrap() {
        Some((Some(id), 0)) => assert_eq!(id.data(), &id_bytes),
        other => panic!("unexpected lookup result: {:?}", other),
    }
}
